//! The version and CDN tables: pipe-separated rows after two header lines.
use vstd::prelude::*;

use crate::hash::{hash_text_bytes, is_hash_text, Md5Hash};
use crate::parse::{error_is, Failure, ParserError};
use crate::text::{split_on, split_text, split_words, views, words_of};

verus! {

/// One product configuration of the version table.
#[derive(Debug, Clone)]
pub struct VersionDefinition {
    pub region: String,
    pub build_config: Md5Hash,
    pub cdn_config: Md5Hash,
    pub key_ring: Option<Md5Hash>,
    pub build_id: String,
    pub version_name: String,
    pub product_config: Md5Hash,
}

/// One CDN of the CDN table.
#[derive(Debug, Clone)]
pub struct CdnDefinition {
    pub name: String,
    pub path: String,
    pub hosts: Vec<String>,
    pub servers: Vec<String>,
    pub config_path: String,
}

/// The next field, if any is left.
fn next_or_exhaust(fields: &Vec<String>, i: &mut usize) -> (r: Result<String, ParserError>)
    requires
        *old(i) <= fields@.len(),
    ensures
        *old(i) < fields@.len() ==> (*final(i) == *old(i) + 1 && (r matches Ok(s) && s@
            == fields@[*old(i) as int]@)),
        *old(i) == fields@.len() ==> (*final(i) == *old(i) && (r matches Err(e) && e is Exhausted)),
{
    if *i < fields.len() {
        let s = fields[*i].clone();
        *i = *i + 1;
        Ok(s)
    } else {
        Err(ParserError::Exhausted)
    }
}

/// The first failure of a version table row with fields `f`: region, build
/// config, CDN config, key ring, build id, version name, product config.
pub open spec fn version_entry_failure(f: Seq<Seq<char>>) -> Option<Failure> {
    if f.len() < 2 {
        Some(Failure::Exhausted)
    } else if !is_hash_text(f[1]) {
        Some(Failure::Md5Parse)
    } else if f.len() < 3 {
        Some(Failure::Exhausted)
    } else if !is_hash_text(f[2]) {
        Some(Failure::Md5Parse)
    } else if f.len() < 7 {
        Some(Failure::Exhausted)
    } else if !is_hash_text(f[6]) {
        Some(Failure::Md5Parse)
    } else {
        None
    }
}

/// Whether `v` holds the fields `f` of a row; a key ring that is not a hash
/// is left out.
pub open spec fn version_from(v: VersionDefinition, f: Seq<Seq<char>>) -> bool {
    &&& v.region@ == f[0]
    &&& v.build_config@ == hash_text_bytes(f[1])
    &&& v.cdn_config@ == hash_text_bytes(f[2])
    &&& (if is_hash_text(f[3]) {
        v.key_ring matches Some(k) && k@ == hash_text_bytes(f[3])
    } else {
        v.key_ring is None
    })
    &&& v.build_id@ == f[4]
    &&& v.version_name@ == f[5]
    &&& v.product_config@ == hash_text_bytes(f[6])
}

/// Parses one row of the version table.
pub fn parse_version_table_entry(line: &str) -> (r: Result<VersionDefinition, ParserError>)
    ensures
        match r {
            Ok(v) => version_entry_failure(split_on(line@, '|')) is None && version_from(
                v,
                split_on(line@, '|'),
            ),
            Err(e) => version_entry_failure(split_on(line@, '|')) matches Some(f) && error_is(
                e,
                f,
            ),
        },
{
    let fields = split_text(line, '|');
    let ghost f = split_on(line@, '|');
    assert(views(fields@) == f);
    assert(forall|k: int| 0 <= k < fields@.len() ==> fields@[k]@ == f[k]);
    let mut i: usize = 0;
    let region = next_or_exhaust(&fields, &mut i)?;
    let build_config = match Md5Hash::from_str(next_or_exhaust(&fields, &mut i)?.as_str()) {
        Ok(h) => h,
        Err(e) => {
            return Err(ParserError::Md5Parse(e));
        },
    };
    let cdn_config = match Md5Hash::from_str(next_or_exhaust(&fields, &mut i)?.as_str()) {
        Ok(h) => h,
        Err(e) => {
            return Err(ParserError::Md5Parse(e));
        },
    };
    let key_ring = match Md5Hash::from_str(next_or_exhaust(&fields, &mut i)?.as_str()) {
        Ok(h) => Some(h),
        Err(_) => None,
    };
    let build_id = next_or_exhaust(&fields, &mut i)?;
    let version_name = next_or_exhaust(&fields, &mut i)?;
    let product_config = match Md5Hash::from_str(next_or_exhaust(&fields, &mut i)?.as_str()) {
        Ok(h) => h,
        Err(e) => {
            return Err(ParserError::Md5Parse(e));
        },
    };
    Ok(
        VersionDefinition {
            region,
            build_config,
            cdn_config,
            key_ring,
            build_id,
            version_name,
            product_config,
        },
    )
}

/// Whether `c` holds the fields `f` of a row: name, path, servers, hosts and
/// config path, the servers and hosts split at white space.
pub open spec fn cdn_from(c: CdnDefinition, f: Seq<Seq<char>>) -> bool {
    &&& c.name@ == f[0]
    &&& c.path@ == f[1]
    &&& views(c.servers@) == words_of(f[2])
    &&& views(c.hosts@) == words_of(f[3])
    &&& c.config_path@ == f[4]
}

/// Parses one row of the CDN table.
fn parse_cdn_table_entry(line: &str) -> (r: Result<CdnDefinition, ParserError>)
    ensures
        match r {
            Ok(c) => split_on(line@, '|').len() >= 5 && cdn_from(c, split_on(line@, '|')),
            Err(e) => split_on(line@, '|').len() < 5 && e is Exhausted,
        },
{
    let fields = split_text(line, '|');
    let ghost f = split_on(line@, '|');
    assert(views(fields@) == f);
    assert(forall|k: int| 0 <= k < fields@.len() ==> fields@[k]@ == f[k]);
    let mut i: usize = 0;
    let name = next_or_exhaust(&fields, &mut i)?;
    let path = next_or_exhaust(&fields, &mut i)?;
    let servers = split_words(next_or_exhaust(&fields, &mut i)?.as_str());
    let hosts = split_words(next_or_exhaust(&fields, &mut i)?.as_str());
    let config_path = next_or_exhaust(&fields, &mut i)?;
    Ok(CdnDefinition { name, path, hosts, servers, config_path })
}

/// The lines that are not empty, in order.
pub open spec fn nonempty_only(ls: Seq<Seq<char>>) -> Seq<Seq<char>>
    decreases ls.len(),
{
    if ls.len() == 0 {
        Seq::empty()
    } else {
        let p = nonempty_only(ls.drop_last());
        if ls.last().len() > 0 {
            p.push(ls.last())
        } else {
            p
        }
    }
}

/// The rows of a table: the non-empty lines after the format line and the
/// sequence line.
pub open spec fn table_rows(data: Seq<char>) -> Seq<Seq<char>> {
    let ls = split_on(data, '\n');
    nonempty_only(ls.subrange(2, ls.len() as int))
}

/// The failure of the first row that `check` refuses.
pub open spec fn first_row_failure(
    rows: Seq<Seq<char>>,
    check: spec_fn(Seq<char>) -> Option<Failure>,
) -> Option<Failure>
    decreases rows.len(),
{
    if rows.len() == 0 {
        None
    } else {
        match first_row_failure(rows.drop_last(), check) {
            Some(f) => Some(f),
            None => check(rows.last()),
        }
    }
}

/// The failure of a version table row.
pub open spec fn version_row_check() -> spec_fn(Seq<char>) -> Option<Failure> {
    |l: Seq<char>| version_entry_failure(split_on(l, '|'))
}

/// The failure of a CDN table row.
pub open spec fn cdn_row_check() -> spec_fn(Seq<char>) -> Option<Failure> {
    |l: Seq<char>|
        if split_on(l, '|').len() < 5 {
            Some(Failure::Exhausted)
        } else {
            None
        }
}

proof fn lemma_nonempty_concat(a: Seq<Seq<char>>, b: Seq<Seq<char>>)
    ensures
        nonempty_only(a + b) == nonempty_only(a) + nonempty_only(b),
    decreases b.len(),
{
    if b.len() == 0 {
        assert(a + b =~= a);
        assert(nonempty_only(a) + nonempty_only(b) =~= nonempty_only(a));
    } else {
        assert((a + b).drop_last() =~= a + b.drop_last());
        lemma_nonempty_concat(a, b.drop_last());
        if b.last().len() > 0 {
            assert(nonempty_only(a) + nonempty_only(b) =~= (nonempty_only(a) + nonempty_only(
                b.drop_last(),
            )).push(b.last()));
        }
    }
}

proof fn lemma_failure_persists(
    a: Seq<Seq<char>>,
    b: Seq<Seq<char>>,
    check: spec_fn(Seq<char>) -> Option<Failure>,
)
    requires
        first_row_failure(a, check) is Some,
    ensures
        first_row_failure(a + b, check) == first_row_failure(a, check),
    decreases b.len(),
{
    if b.len() == 0 {
        assert(a + b =~= a);
    } else {
        assert((a + b).drop_last() =~= a + b.drop_last());
        lemma_failure_persists(a, b.drop_last(), check);
    }
}

/// Splits a table into its lines and checks that the two header lines are
/// there.
fn table_lines(data: &str) -> (r: Result<Vec<String>, ParserError>)
    ensures
        match r {
            Ok(ls) => views(ls@) == split_on(data@, '\n') && ls@.len() >= 2,
            Err(e) => split_on(data@, '\n').len() < 2 && e is Exhausted,
        },
{
    let ls = split_text(data, '\n');
    if ls.len() < 2 {
        return Err(ParserError::Exhausted);
    }
    Ok(ls)
}

/// Parses the version table: a format line, a sequence line, then one row per
/// non-empty line.
pub fn parse_version_table(data: &str) -> (r: Result<Vec<VersionDefinition>, ParserError>)
    ensures
        match r {
            Ok(v) => split_on(data@, '\n').len() >= 2 && first_row_failure(
                table_rows(data@),
                version_row_check(),
            ) is None && v@.len() == table_rows(data@).len() && forall|i: int|
                0 <= i < v@.len() ==> version_from(
                    #[trigger] v@[i],
                    split_on(table_rows(data@)[i], '|'),
                ),
            Err(e) => (split_on(data@, '\n').len() < 2 && e is Exhausted) || (split_on(
                data@,
                '\n',
            ).len() >= 2 && (first_row_failure(table_rows(data@), version_row_check()) matches Some(
                f,
            ) && error_is(e, f))),
        },
{
    let ls = table_lines(data)?;
    let ghost p = split_on(data@, '\n');
    let n = ls.len();
    let mut out: Vec<VersionDefinition> = Vec::new();
    let mut i: usize = 2;
    assert(nonempty_only(p.subrange(2, 2)) =~= Seq::<Seq<char>>::empty());
    while i < n
        invariant
            views(ls@) == p,
            p == split_on(data@, '\n'),
            n == p.len(),
            2 <= i <= n,
            first_row_failure(nonempty_only(p.subrange(2, i as int)), version_row_check()) is None,
            out@.len() == nonempty_only(p.subrange(2, i as int)).len(),
            forall|k: int|
                0 <= k < out@.len() ==> version_from(
                    #[trigger] out@[k],
                    split_on(nonempty_only(p.subrange(2, i as int))[k], '|'),
                ),
        decreases n - i,
    {
        let ghost pre = p.subrange(2, i as int);
        let ghost next = p.subrange(2, i + 1);
        assert(next.drop_last() =~= pre);
        assert(ls@[i as int]@ == p[i as int]);
        if !ls[i].as_str().is_empty() {
            let ghost rows = nonempty_only(next);
            assert(rows == nonempty_only(pre).push(p[i as int]));
            assert(rows.drop_last() =~= nonempty_only(pre));
            assert(first_row_failure(rows, version_row_check()) == version_row_check()(p[i as int]));
            match parse_version_table_entry(ls[i].as_str()) {
                Ok(v) => {
                    let ghost before = out@;
                    out.push(v);
                    assert forall|k: int| 0 <= k < out@.len() implies version_from(
                        #[trigger] out@[k],
                        split_on(rows[k], '|'),
                    ) by {
                        if k < before.len() {
                            assert(out@[k] == before[k]);
                        }
                    }
                },
                Err(e) => {
                    proof {
                        assert(p.subrange(2, n as int) =~= next + p.subrange(i + 1, n as int));
                        lemma_nonempty_concat(next, p.subrange(i + 1, n as int));
                        lemma_failure_persists(
                            rows,
                            nonempty_only(p.subrange(i + 1, n as int)),
                            version_row_check(),
                        );
                    }
                    return Err(e);
                },
            }
        } else {
            assert(p[i as int].len() == 0);
            assert(nonempty_only(next) == nonempty_only(pre));
        }
        i = i + 1;
    }
    Ok(out)
}

/// Parses the CDN table: a format line, a sequence line, then one row per
/// non-empty line.
pub fn parse_cdn_table(data: &str) -> (r: Result<Vec<CdnDefinition>, ParserError>)
    ensures
        match r {
            Ok(v) => split_on(data@, '\n').len() >= 2 && first_row_failure(
                table_rows(data@),
                cdn_row_check(),
            ) is None && v@.len() == table_rows(data@).len() && forall|i: int|
                0 <= i < v@.len() ==> cdn_from(#[trigger] v@[i], split_on(table_rows(data@)[i], '|')),
            Err(e) => e is Exhausted && ((split_on(data@, '\n').len() < 2) || (split_on(
                data@,
                '\n',
            ).len() >= 2 && first_row_failure(table_rows(data@), cdn_row_check()) is Some)),
        },
{
    let ls = table_lines(data)?;
    let ghost p = split_on(data@, '\n');
    let n = ls.len();
    let mut out: Vec<CdnDefinition> = Vec::new();
    let mut i: usize = 2;
    assert(nonempty_only(p.subrange(2, 2)) =~= Seq::<Seq<char>>::empty());
    while i < n
        invariant
            views(ls@) == p,
            p == split_on(data@, '\n'),
            n == p.len(),
            2 <= i <= n,
            first_row_failure(nonempty_only(p.subrange(2, i as int)), cdn_row_check()) is None,
            out@.len() == nonempty_only(p.subrange(2, i as int)).len(),
            forall|k: int|
                0 <= k < out@.len() ==> cdn_from(
                    #[trigger] out@[k],
                    split_on(nonempty_only(p.subrange(2, i as int))[k], '|'),
                ),
        decreases n - i,
    {
        let ghost pre = p.subrange(2, i as int);
        let ghost next = p.subrange(2, i + 1);
        assert(next.drop_last() =~= pre);
        assert(ls@[i as int]@ == p[i as int]);
        if !ls[i].as_str().is_empty() {
            let ghost rows = nonempty_only(next);
            assert(rows == nonempty_only(pre).push(p[i as int]));
            assert(rows.drop_last() =~= nonempty_only(pre));
            assert(first_row_failure(rows, cdn_row_check()) == cdn_row_check()(p[i as int]));
            match parse_cdn_table_entry(ls[i].as_str()) {
                Ok(c) => {
                    let ghost before = out@;
                    out.push(c);
                    assert forall|k: int| 0 <= k < out@.len() implies cdn_from(
                        #[trigger] out@[k],
                        split_on(rows[k], '|'),
                    ) by {
                        if k < before.len() {
                            assert(out@[k] == before[k]);
                        }
                    }
                },
                Err(e) => {
                    proof {
                        assert(p.subrange(2, n as int) =~= next + p.subrange(i + 1, n as int));
                        lemma_nonempty_concat(next, p.subrange(i + 1, n as int));
                        lemma_failure_persists(
                            rows,
                            nonempty_only(p.subrange(i + 1, n as int)),
                            cdn_row_check(),
                        );
                    }
                    return Err(e);
                },
            }
        } else {
            assert(p[i as int].len() == 0);
            assert(nonempty_only(next) == nonempty_only(pre));
        }
        i = i + 1;
    }
    Ok(out)
}

} // verus!
