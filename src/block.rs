//! The block record and its mathematical view.

use vstd::prelude::*;

verus! {

/// Optional structured metadata carried alongside a block's payload.
#[derive(Clone, Debug)]
pub struct BlockMetadata {
    pub author: String,
    pub version: String,
    pub transactions_count: u32,
}

/// One block record: a primary identifier, a content hash, a timestamp and an
/// opaque payload.
#[derive(Clone, Debug)]
pub struct BlockResult {
    pub id: String,
    pub hash: String,
    pub timestamp: u64,
    pub data: Vec<u8>,
    pub metadata: Option<BlockMetadata>,
}

/// What a metadata value holds, as plain mathematical values.
pub struct MetadataView {
    pub author: Seq<char>,
    pub version: Seq<char>,
    pub transactions_count: u32,
}

/// What a block record holds, as plain mathematical values.
pub struct BlockView {
    pub id: Seq<char>,
    pub hash: Seq<char>,
    pub timestamp: u64,
    pub data: Seq<u8>,
    pub metadata: Option<MetadataView>,
}

impl View for BlockMetadata {
    type V = MetadataView;

    open spec fn view(&self) -> MetadataView {
        MetadataView {
            author: self.author@,
            version: self.version@,
            transactions_count: self.transactions_count,
        }
    }
}

impl View for BlockResult {
    type V = BlockView;

    open spec fn view(&self) -> BlockView {
        BlockView {
            id: self.id@,
            hash: self.hash@,
            timestamp: self.timestamp,
            data: self.data@,
            metadata: match self.metadata {
                Some(m) => Some(m@),
                None => None,
            },
        }
    }
}

impl BlockMetadata {
    /// A field-by-field copy with the same contents.
    pub fn duplicate(&self) -> (r: BlockMetadata)
        ensures
            r@ == self@,
    {
        BlockMetadata {
            author: self.author.clone(),
            version: self.version.clone(),
            transactions_count: self.transactions_count,
        }
    }
}

impl BlockResult {
    /// A field-by-field copy with the same contents.
    pub fn duplicate(&self) -> (r: BlockResult)
        ensures
            r@ == self@,
    {
        let mut data: Vec<u8> = Vec::with_capacity(self.data.len());
        let mut i: usize = 0;
        while i < self.data.len()
            invariant
                i <= self.data.len(),
                data@ == self.data@.subrange(0, i as int),
            decreases self.data.len() - i,
        {
            data.push(self.data[i]);
            i += 1;
            assert(data@ =~= self.data@.subrange(0, i as int));
        }
        assert(data@ =~= self.data@);
        let metadata = match &self.metadata {
            Some(m) => Some(m.duplicate()),
            None => None,
        };
        BlockResult {
            id: self.id.clone(),
            hash: self.hash.clone(),
            timestamp: self.timestamp,
            data,
            metadata,
        }
    }
}

} // verus!
