//! A canonical digest of the contents of a set of files, to tag an implementation's version.
use vstd::prelude::*;
use crate::crypto::{keccak256, keccak256_spec};
use crate::utils::{concat_all, lemma_concat_all_push};

verus! {

/// The models of byte vectors.
pub open spec fn contents_view(contents: Seq<Vec<u8>>) -> Seq<Seq<u8>> {
    contents.map_values(|v: Vec<u8>| v@)
}

/// Generates the digest of file contents given in traversal order: the Keccak-256 digest of
/// their concatenation.
pub fn digest(contents: &Vec<Vec<u8>>) -> (h: [u8; 32])
    ensures
        h@ == keccak256_spec(concat_all(contents_view(contents@))),
{
    let mut all: Vec<u8> = Vec::new();
    let mut i: usize = 0;
    while i < contents.len()
        invariant
            i <= contents@.len(),
            all@ == concat_all(contents_view(contents@.take(i as int))),
        decreases contents@.len() - i,
    {
        let ghost before = all@;
        all.extend_from_slice(contents[i].as_slice());
        proof {
            let items = contents_view(contents@.take(i as int));
            lemma_concat_all_push(items, contents@[i as int]@);
            assert(contents_view(contents@.take(i + 1)) =~= items.push(contents@[i as int]@));
        }
        i = i + 1;
    }
    assert(contents@.take(i as int) =~= contents@);
    keccak256(all.as_slice())
}

} // verus!
