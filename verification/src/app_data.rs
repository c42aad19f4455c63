use vstd::prelude::*;

verus! {

/// GPU buffers, and their memory, that wait to be destroyed once the frame
/// using them is done. Handles are raw 64-bit values.
#[derive(Clone, Debug)]
pub struct DeletionQueue {
    pub buffers: Vec<u64>,
    pub buffer_memories: Vec<u64>,
}

impl Default for DeletionQueue {
    fn default() -> (q: Self)
        ensures
            q.buffers@.len() == 0,
            q.buffer_memories@.len() == 0,
    {
        DeletionQueue { buffers: Vec::new(), buffer_memories: Vec::new() }
    }
}

impl DeletionQueue {
    /// Queues a buffer and its memory for destruction.
    pub fn push(&mut self, buffer: u64, buffer_memory: u64)
        ensures
            final(self).buffers@ == old(self).buffers@.push(buffer),
            final(self).buffer_memories@ == old(self).buffer_memories@.push(buffer_memory),
    {
        self.buffers.push(buffer);
        self.buffer_memories.push(buffer_memory);
    }

    /// Takes every queued buffer and memory handle out of the queue, in
    /// queue order, leaving it empty.
    pub fn drain(&mut self) -> (r: (Vec<u64>, Vec<u64>))
        ensures
            r.0@ == old(self).buffers@,
            r.1@ == old(self).buffer_memories@,
            final(self).buffers@.len() == 0,
            final(self).buffer_memories@.len() == 0,
    {
        let mut buffers: Vec<u64> = Vec::new();
        let mut buffer_memories: Vec<u64> = Vec::new();
        std::mem::swap(&mut buffers, &mut self.buffers);
        std::mem::swap(&mut buffer_memories, &mut self.buffer_memories);
        (buffers, buffer_memories)
    }
}

} // verus!
