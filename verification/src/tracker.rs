//! Bookkeeping of the compressed sizes that different methods reach.
use vstd::prelude::*;

verus! {

/// Tracks compression ratios across multiple runs.
#[derive(Debug, Clone)]
pub struct CompressionTracker {
    pub original_size: usize,
    pub compressed_sizes: Vec<usize>,
    pub method_names: Vec<String>,
}

impl CompressionTracker {
    /// A tracker for data of `original_size` units, with nothing recorded.
    pub fn new(original_size: usize) -> (t: Self)
        ensures
            t.original_size == original_size,
            t.compressed_sizes@ == Seq::<usize>::empty(),
            t.method_names@ == Seq::<String>::empty(),
    {
        CompressionTracker { original_size, compressed_sizes: Vec::new(), method_names: Vec::new() }
    }

    /// Records that `method` compressed the data to `compressed_size` units.
    pub fn record(&mut self, method: &str, compressed_size: usize)
        ensures
            final(self).original_size == old(self).original_size,
            final(self).compressed_sizes@ == old(self).compressed_sizes@.push(compressed_size),
            final(self).method_names@.len() == old(self).method_names@.len() + 1,
            final(self).method_names@.drop_last() == old(self).method_names@,
            final(self).method_names@.last()@ == method@,
    {
        let name = method.to_string();
        self.method_names.push(name);
        self.compressed_sizes.push(compressed_size);
        assert(self.method_names@.drop_last() =~= old(self).method_names@);
    }
}

} // verus!
