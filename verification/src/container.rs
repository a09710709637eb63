//! Choosing an archive container by filename, and the container stubs
//! this build deliberately leaves unsupported.

use vstd::prelude::*;
use vstd::string::StrSliceExecFns;
use crate::error::{unsupported_error, Error};
use crate::reader::TileReader;

verus! {

/// The archive container formats a filename can name.
#[derive(Debug, Clone, Copy, PartialEq, Eq, Structural)]
pub enum ContainerKind {
    MBTiles,
    Tar,
    Versatiles,
}

/// The start of the filename's extension: one past the last dot, or zero
/// when no dot occurs, so that a dotless name is its own extension.
pub open spec fn spec_ext_start(s: Seq<char>) -> int
    decreases s.len(),
{
    if s.len() == 0 {
        0
    } else if s.last() == '.' {
        s.len() as int
    } else {
        spec_ext_start(s.drop_last())
    }
}

/// The filename's extension.
pub open spec fn spec_extension(s: Seq<char>) -> Seq<char> {
    s.subrange(spec_ext_start(s), s.len() as int)
}

/// Which container a filename names, judged by its extension; any other
/// extension is unsupported.
#[verifier::loop_isolation(false)]
pub fn container_kind_for_filename(filename: &str) -> (r: Result<ContainerKind, Error>)
    ensures
        match r {
            Ok(k) => match k {
                ContainerKind::MBTiles => spec_extension(filename@) == "mbtiles"@,
                ContainerKind::Tar => spec_extension(filename@) == "tar"@,
                ContainerKind::Versatiles => spec_extension(filename@) == "versatiles"@,
            },
            Err(e) => {
                &&& e is Unsupported
                &&& spec_extension(filename@) != "mbtiles"@
                &&& spec_extension(filename@) != "tar"@
                &&& spec_extension(filename@) != "versatiles"@
            },
        },
{
    let s = filename;
    let n = s.unicode_len();
    let ghost sq = filename@;
    let mut a: usize = n;
    proof {
        assert(sq.take(n as int) =~= sq);
    }
    while a > 0 && s.get_char(a - 1) != '.'
        invariant
            a <= n,
            n == sq.len(),
            spec_ext_start(sq.take(a as int)) == spec_ext_start(sq),
            forall|j: int| a <= j < n ==> sq[j] != '.',
        decreases a,
    {
        proof {
            assert(sq.take(a as int).drop_last() =~= sq.take(a as int - 1));
        }
        a = a - 1;
    }
    proof {
        if a == 0 {
            assert(sq.take(0) =~= Seq::<char>::empty());
        }
        assert(spec_ext_start(sq) == a);
    }
    if range_eq(s, a, n, "mbtiles") {
        Ok(ContainerKind::MBTiles)
    } else if range_eq(s, a, n, "tar") {
        Ok(ContainerKind::Tar)
    } else if range_eq(s, a, n, "versatiles") {
        Ok(ContainerKind::Versatiles)
    } else {
        Err(unsupported_error("unknown container file extension"))
    }
}

/// Compares the characters of `s[a .. b]` with a literal.
#[verifier::loop_isolation(false)]
fn range_eq(s: &str, a: usize, b: usize, lit: &str) -> (r: bool)
    requires
        a <= b <= s@.len(),
    ensures
        r == (s@.subrange(a as int, b as int) == lit@),
{
    let m = lit.unicode_len();
    if b - a != m {
        proof {
            assert(s@.subrange(a as int, b as int).len() != lit@.len());
        }
        return false;
    }
    let mut i: usize = 0;
    while i < m
        invariant
            i <= m,
            forall|j: int| 0 <= j < i ==> s@.subrange(a as int, b as int)[j] == lit@[j],
        decreases m - i,
    {
        if s.get_char(a + i) != lit.get_char(i) {
            proof {
                assert(s@.subrange(a as int, b as int)[i as int] != lit@[i as int]);
            }
            return false;
        }
        i = i + 1;
    }
    proof {
        assert(s@.subrange(a as int, b as int) =~= lit@);
    }
    true
}

/// The relational-store container cannot be written by this library: its
/// converter always reports the operation as unsupported, as the archive
/// contract asks.
#[derive(Debug)]
pub struct TileConverter {}

impl TileConverter {
    /// Would open a converter writing to `filename`; always unsupported.
    pub fn new(filename: &str) -> (r: Result<TileConverter, Error>)
        ensures
            r is Err,
            r->Err_0 is Unsupported,
    {
        let _ = filename;
        Err(unsupported_error("conversion to mbtiles is not supported"))
    }

    /// Would drain `reader` into the store; always unsupported.
    pub fn convert_from<R: TileReader>(&mut self, reader: &R) -> (r: Result<(), Error>)
        ensures
            r is Err,
            r->Err_0 is Unsupported,
    {
        let _ = reader;
        Err(unsupported_error("conversion to mbtiles is not supported"))
    }
}

} // verus!
