//! The build configuration: which manifests make up a build.
use vstd::prelude::*;

use crate::hash::Md5Hash;
use crate::parse::{
    after_line, error_is, first_line, hash_attribute, hash_pair_attribute, parse_named_attribute,
    parse_named_attribute_pair, parse_named_size_pair, size_pair_attribute, Failure, ParserError,
};
use crate::text::{lines_of, TextLines};

verus! {

/// The keys and sizes a build configuration names. Each pair holds the
/// content key first and the encoding key second.
#[derive(Debug, Clone, Copy)]
pub struct BuildConfig {
    pub root: Md5Hash,
    pub install: (Md5Hash, Md5Hash),
    pub install_size: (u32, u32),
    pub download: (Md5Hash, Md5Hash),
    pub download_size: (u32, u32),
    pub encoding: (Md5Hash, Md5Hash),
    pub encoding_size: (u32, u32),
}

/// Line `k`, if there is one.
pub open spec fn line_at(ls: Seq<Seq<char>>, k: int) -> Option<Seq<char>> {
    if 0 <= k < ls.len() {
        Some(ls[k])
    } else {
        None
    }
}

/// The first failure of a build configuration with lines `ls`: a title line
/// and a blank line, then `root`, `install`, `install-size`, `download`,
/// `download-size`, `size`, `size-size`, `encoding` and `encoding-size`, in
/// this order.
pub open spec fn build_config_failure(ls: Seq<Seq<char>>) -> Option<Failure> {
    if ls.len() < 2 {
        Some(Failure::Exhausted)
    } else if hash_attribute("root"@, line_at(ls, 2)) is Err {
        Some(hash_attribute("root"@, line_at(ls, 2))->Err_0)
    } else if hash_pair_attribute("install"@, line_at(ls, 3)) is Err {
        Some(hash_pair_attribute("install"@, line_at(ls, 3))->Err_0)
    } else if size_pair_attribute("install-size"@, line_at(ls, 4)) is Err {
        Some(size_pair_attribute("install-size"@, line_at(ls, 4))->Err_0)
    } else if hash_pair_attribute("download"@, line_at(ls, 5)) is Err {
        Some(hash_pair_attribute("download"@, line_at(ls, 5))->Err_0)
    } else if size_pair_attribute("download-size"@, line_at(ls, 6)) is Err {
        Some(size_pair_attribute("download-size"@, line_at(ls, 6))->Err_0)
    } else if hash_pair_attribute("size"@, line_at(ls, 7)) is Err {
        Some(hash_pair_attribute("size"@, line_at(ls, 7))->Err_0)
    } else if size_pair_attribute("size-size"@, line_at(ls, 8)) is Err {
        Some(size_pair_attribute("size-size"@, line_at(ls, 8))->Err_0)
    } else if hash_pair_attribute("encoding"@, line_at(ls, 9)) is Err {
        Some(hash_pair_attribute("encoding"@, line_at(ls, 9))->Err_0)
    } else if size_pair_attribute("encoding-size"@, line_at(ls, 10)) is Err {
        Some(size_pair_attribute("encoding-size"@, line_at(ls, 10))->Err_0)
    } else {
        None
    }
}

/// Whether a hash pair holds the two hashes `p`.
pub open spec fn pair_is(x: (Md5Hash, Md5Hash), p: (Seq<u8>, Seq<u8>)) -> bool {
    x.0@ == p.0 && x.1@ == p.1
}

/// Whether `c` holds the values that the lines `ls` give.
pub open spec fn config_from(c: BuildConfig, ls: Seq<Seq<char>>) -> bool {
    &&& c.root@ == hash_attribute("root"@, line_at(ls, 2))->Ok_0
    &&& pair_is(c.install, hash_pair_attribute("install"@, line_at(ls, 3))->Ok_0)
    &&& c.install_size == size_pair_attribute("install-size"@, line_at(ls, 4))->Ok_0
    &&& pair_is(c.download, hash_pair_attribute("download"@, line_at(ls, 5))->Ok_0)
    &&& c.download_size == size_pair_attribute("download-size"@, line_at(ls, 6))->Ok_0
    &&& pair_is(c.encoding, hash_pair_attribute("encoding"@, line_at(ls, 9))->Ok_0)
    &&& c.encoding_size == size_pair_attribute("encoding-size"@, line_at(ls, 10))->Ok_0
}

proof fn lemma_line_step(ls: Seq<Seq<char>>, k: int)
    requires
        0 <= k <= ls.len(),
    ensures
        first_line(ls.skip(k)) == line_at(ls, k),
        k < ls.len() ==> after_line(ls.skip(k)) =~= ls.skip(k + 1),
{
}

/// Parses a build configuration.
pub fn parse_build_config(data: &str) -> (r: Result<BuildConfig, ParserError>)
    ensures
        match r {
            Ok(c) => build_config_failure(lines_of(data@)) is None && config_from(
                c,
                lines_of(data@),
            ),
            Err(e) => build_config_failure(lines_of(data@)) matches Some(f) && error_is(e, f),
        },
{
    let mut lines = TextLines::new(data);
    let ghost ls = lines_of(data@);
    assert(lines.rest().skip(0) =~= lines.rest());
    let _title = match lines.next_line() {
        Some(l) => l,
        None => {
            return Err(ParserError::Exhausted);
        },
    };
    let _blank = match lines.next_line() {
        Some(l) => l,
        None => {
            return Err(ParserError::Exhausted);
        },
    };
    assert(lines.rest() =~= ls.skip(2));
    proof { lemma_line_step(ls, 2); }
    let root = parse_named_attribute("root", &mut lines)?;
    proof { lemma_line_step(ls, 3); }
    let install = parse_named_attribute_pair("install", &mut lines)?;
    proof { lemma_line_step(ls, 4); }
    let install_size = parse_named_size_pair("install-size", &mut lines)?;
    proof { lemma_line_step(ls, 5); }
    let download = parse_named_attribute_pair("download", &mut lines)?;
    proof { lemma_line_step(ls, 6); }
    let download_size = parse_named_size_pair("download-size", &mut lines)?;
    proof { lemma_line_step(ls, 7); }
    let _size = parse_named_attribute_pair("size", &mut lines)?;
    proof { lemma_line_step(ls, 8); }
    let _size_size = parse_named_size_pair("size-size", &mut lines)?;
    proof { lemma_line_step(ls, 9); }
    let encoding = parse_named_attribute_pair("encoding", &mut lines)?;
    proof { lemma_line_step(ls, 10); }
    let encoding_size = parse_named_size_pair("encoding-size", &mut lines)?;
    Ok(
        BuildConfig {
            root,
            install,
            install_size,
            download,
            download_size,
            encoding,
            encoding_size,
        },
    )
}

} // verus!
