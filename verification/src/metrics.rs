use vstd::prelude::*;

use std::collections::VecDeque;

verus! {

/// The most recent frame times, at most `max_samples` of them, oldest first.
pub struct FrameTimer<T> {
    frame_times: VecDeque<T>,
    max_samples: usize,
}

impl<T: Copy> FrameTimer<T> {
    /// The recorded frame times, oldest first.
    pub closed spec fn samples(&self) -> Seq<T> {
        self.frame_times@
    }

    /// How many frame times are kept.
    pub closed spec fn capacity(&self) -> nat {
        self.max_samples as nat
    }

    /// An empty timer keeping the last 100 frame times.
    pub fn new() -> (t: Self)
        ensures
            t.samples() == Seq::<T>::empty(),
            t.capacity() == 100,
    {
        FrameTimer { frame_times: VecDeque::new(), max_samples: 100 }
    }

    /// Records a frame time; when more than `capacity` are held, the oldest
    /// one is dropped.
    pub fn update(&mut self, dt: T)
        ensures
            final(self).capacity() == old(self).capacity(),
            final(self).samples() == (if old(self).samples().len() + 1 > old(self).capacity() {
                old(self).samples().push(dt).drop_first()
            } else {
                old(self).samples().push(dt)
            }),
            old(self).samples().len() <= old(self).capacity() ==> final(self).samples().len()
                <= final(self).capacity(),
    {
        self.frame_times.push_back(dt);
        if self.frame_times.len() > self.max_samples {
            self.frame_times.pop_front();
        }
    }

    /// The recorded frame times, oldest first.
    pub fn frame_times(&self) -> (r: &VecDeque<T>)
        ensures
            r@ == self.samples(),
    {
        &self.frame_times
    }
}

} // verus!
