//! Path assembly for the records of the catalog: the absolute directory of
//! an entry, from the database's base directory and the entry's directory.
//! Paths are byte strings with `/` as the separator; an absolute entry
//! directory replaces the base directory.
use vstd::prelude::*;
use crate::text::copy_range;

verus! {

/// The joined path: `directory` alone when it is absolute or the base is
/// empty; otherwise the base, a separator where one is missing, and the
/// directory.
pub open spec fn spec_join(base: Seq<u8>, dir: Seq<u8>) -> Seq<u8> {
    if dir.len() > 0 && dir[0] == 0x2f {
        dir
    } else if base.len() == 0 {
        dir
    } else if base.last() == 0x2f {
        base + dir
    } else {
        base + seq![0x2fu8] + dir
    }
}

/// Determines the absolute directory by combining `base_dir` and
/// `directory`. If the latter is absolute, it replaces the base.
pub fn absolute_directory(base_dir: &[u8], directory: &[u8]) -> (r: Vec<u8>)
    ensures
        r@ == spec_join(base_dir@, directory@),
{
    if directory.len() > 0 && directory[0] == 0x2f {
        let r = copy_range(directory, 0, directory.len());
        proof {
            assert(r@ =~= directory@);
        }
        return r;
    }
    if base_dir.len() == 0 {
        let r = copy_range(directory, 0, directory.len());
        proof {
            assert(r@ =~= directory@);
        }
        return r;
    }
    let mut r = copy_range(base_dir, 0, base_dir.len());
    proof {
        assert(r@ =~= base_dir@);
    }
    let ghost stem = r@;
    if base_dir[base_dir.len() - 1] != 0x2f {
        r.push(0x2f);
        proof {
            assert(r@ =~= base_dir@ + seq![0x2fu8]);
        }
    }
    let ghost head = r@;
    let mut i: usize = 0;
    while i < directory.len()
        invariant
            0 <= i <= directory@.len(),
            r@ == head + directory@.subrange(0, i as int),
        decreases directory@.len() - i,
    {
        r.push(directory[i]);
        proof {
            assert(r@ =~= head + directory@.subrange(0, i + 1));
        }
        i = i + 1;
    }
    proof {
        assert(directory@.subrange(0, directory@.len() as int) =~= directory@);
        if base_dir@.last() == 0x2f {
            assert(r@ =~= base_dir@ + directory@);
        } else {
            assert(r@ =~= base_dir@ + seq![0x2fu8] + directory@);
        }
    }
    r
}

} // verus!
