//! Ordering of a file's leading directive lines.
use vstd::prelude::*;
use vstd::utf8::valid_utf8;

use crate::diagnostics::{bytes_lt, bytes_lt_exec};
use crate::formatting::{first_ws, first_ws_exec};
use crate::text::{bytes_eq, lemma_skip_ws_bounds, lemma_utf8_ascii, skip_ws, trim_start_at};

verus! {

broadcast use vstd::utf8::valid_utf8_concat;

/// The first white-space separated word of a line.
pub open spec fn first_word(b: Seq<u8>) -> Seq<u8> {
    let s = skip_ws(b, 0, b.len() as int);
    b.subrange(s, first_ws(b, s, b.len() as int))
}

pub open spec fn lit(s: &str) -> Seq<u8> {
    crate::text::utf8(s@)
}

/// Where a directive goes: `@luma`, `@profile`, `@schema`, `@import`, `@include`, `@use`,
/// then all others.
pub open spec fn directive_bucket(name: Seq<u8>) -> int {
    if name == lit("@luma") {
        0
    } else if name == lit("@profile") {
        1
    } else if name == lit("@schema") {
        2
    } else if name == lit("@import") {
        3
    } else if name == lit("@include") {
        4
    } else if name == lit("@use") {
        5
    } else {
        6
    }
}

pub open spec fn lower_byte(c: u8) -> u8 {
    if 0x41 <= c <= 0x5a {
        (c + 32) as u8
    } else {
        c
    }
}

/// ASCII lower case of the bytes.
pub open spec fn lower_bytes(b: Seq<u8>) -> Seq<u8> {
    b.map_values(|c: u8| lower_byte(c))
}

/// The order of directive lines: by bucket, then by the lower-cased line.
pub open spec fn line_key(b: Seq<u8>) -> (int, Seq<u8>) {
    (directive_bucket(first_word(b)), lower_bytes(b))
}

pub open spec fn line_key_lt(a: Seq<u8>, b: Seq<u8>) -> bool {
    let ka = line_key(a);
    let kb = line_key(b);
    ka.0 < kb.0 || (ka.0 == kb.0 && bytes_lt(ka.1, kb.1, 0))
}

/// Where a stable sort puts `x` among the sorted `s`: before the first greater key.
pub open spec fn insert_pos(s: Seq<Seq<u8>>, x: Seq<u8>, p: int) -> int
    decreases s.len() - p,
{
    if p < 0 || p >= s.len() {
        s.len() as int
    } else if line_key_lt(x, s[p]) {
        p
    } else {
        insert_pos(s, x, p + 1)
    }
}

/// The lines in the order of their keys, lines of equal keys in their original order.
pub open spec fn sorted_lines(s: Seq<Seq<u8>>) -> Seq<Seq<u8>>
    decreases s.len(),
{
    if s.len() == 0 {
        seq![]
    } else {
        let r = sorted_lines(s.drop_last());
        r.insert(insert_pos(r, s.last(), 0), s.last())
    }
}

/// The lines joined by `sep`.
pub open spec fn join_with(s: Seq<Seq<u8>>, sep: Seq<u8>) -> Seq<u8>
    decreases s.len(),
{
    if s.len() == 0 {
        seq![]
    } else if s.len() == 1 {
        s[0]
    } else {
        join_with(s.drop_last(), sep) + sep + s.last()
    }
}

fn directive_bucket_exec(name: &[u8]) -> (k: usize)
    ensures
        k == directive_bucket(name@),
{
    let luma: [u8; 5] = [0x40, 0x6c, 0x75, 0x6d, 0x61];
    let profile: [u8; 8] = [0x40, 0x70, 0x72, 0x6f, 0x66, 0x69, 0x6c, 0x65];
    let schema: [u8; 7] = [0x40, 0x73, 0x63, 0x68, 0x65, 0x6d, 0x61];
    let import: [u8; 7] = [0x40, 0x69, 0x6d, 0x70, 0x6f, 0x72, 0x74];
    let include_: [u8; 8] = [0x40, 0x69, 0x6e, 0x63, 0x6c, 0x75, 0x64, 0x65];
    let use_: [u8; 4] = [0x40, 0x75, 0x73, 0x65];
    proof {
        reveal_strlit("@luma");
        reveal_strlit("@profile");
        reveal_strlit("@schema");
        reveal_strlit("@import");
        reveal_strlit("@include");
        reveal_strlit("@use");
        lemma_utf8_ascii("@luma"@);
        lemma_utf8_ascii("@profile"@);
        lemma_utf8_ascii("@schema"@);
        lemma_utf8_ascii("@import"@);
        lemma_utf8_ascii("@include"@);
        lemma_utf8_ascii("@use"@);
        assert(luma@ =~= lit("@luma"));
        assert(profile@ =~= lit("@profile"));
        assert(schema@ =~= lit("@schema"));
        assert(import@ =~= lit("@import"));
        assert(include_@ =~= lit("@include"));
        assert(use_@ =~= lit("@use"));
    }
    if bytes_eq(name, luma.as_slice()) {
        0
    } else if bytes_eq(name, profile.as_slice()) {
        1
    } else if bytes_eq(name, schema.as_slice()) {
        2
    } else if bytes_eq(name, import.as_slice()) {
        3
    } else if bytes_eq(name, include_.as_slice()) {
        4
    } else if bytes_eq(name, use_.as_slice()) {
        5
    } else {
        6
    }
}

fn lower_bytes_exec(b: &[u8]) -> (out: Vec<u8>)
    ensures
        out@ == lower_bytes(b@),
{
    let mut out: Vec<u8> = Vec::new();
    let n = b.len();
    let mut i: usize = 0;
    while i < n
        invariant
            i <= n,
            n == b@.len(),
            out@ =~= lower_bytes(b@).subrange(0, i as int),
        decreases n - i,
    {
        let c = b[i];
        if 0x41 <= c && c <= 0x5a {
            out.push(c + 32);
        } else {
            out.push(c);
        }
        i = i + 1;
    }
    out
}

/// The sort key of a directive line: its bucket and its lower-cased text.
fn directive_sort_key(line: &[u8]) -> (key: (usize, Vec<u8>))
    ensures
        key.0 == line_key(line@).0,
        key.1@ == line_key(line@).1,
{
    let n = line.len();
    let s = trim_start_at(line, 0, n);
    let e = first_ws_exec(line, s, n);
    let mut word: Vec<u8> = Vec::new();
    let mut i = s;
    while i < e
        invariant
            s <= i <= e <= n,
            n == line@.len(),
            word@ =~= line@.subrange(s as int, i as int),
        decreases e - i,
    {
        word.push(line[i]);
        i = i + 1;
    }
    (directive_bucket_exec(word.as_slice()), lower_bytes_exec(line))
}

fn line_key_lt_exec(a: &[u8], b: &[u8]) -> (r: bool)
    ensures
        r == line_key_lt(a@, b@),
{
    let ka = directive_sort_key(a);
    let kb = directive_sort_key(b);
    ka.0 < kb.0 || (ka.0 == kb.0 && bytes_lt_exec(ka.1.as_slice(), kb.1.as_slice()))
}

/// A stable sort of the lines by their keys.
pub fn sort_directive_lines(lines: Vec<Vec<u8>>) -> (sorted: Vec<Vec<u8>>)
    ensures
        sorted@.map_values(|l: Vec<u8>| l@) == sorted_lines(lines@.map_values(|l: Vec<u8>| l@)),
{
    let ghost input = lines@.map_values(|l: Vec<u8>| l@);
    let mut rest = lines;
    let mut sorted: Vec<Vec<u8>> = Vec::new();
    let mut done: usize = 0;
    let total = rest.len();
    while rest.len() > 0
        invariant
            done + rest@.len() == total,
            total == input.len(),
            rest@.map_values(|l: Vec<u8>| l@) =~= input.subrange(done as int, total as int),
            sorted@.map_values(|l: Vec<u8>| l@) =~= sorted_lines(input.subrange(0, done as int)),
        decreases rest@.len(),
    {
        let ghost rest_before = rest@;
        let x = rest.remove(0);
        let ghost prev = sorted@.map_values(|l: Vec<u8>| l@);
        proof {
            assert(rest@.map_values(|l: Vec<u8>| l@) =~= rest_before.map_values(|l: Vec<u8>| l@).subrange(
                1,
                rest_before.len() as int,
            ));
        }
        let mut p: usize = 0;
        while p < sorted.len() && !line_key_lt_exec(x.as_slice(), sorted[p].as_slice())
            invariant
                p <= sorted@.len(),
                prev == sorted@.map_values(|l: Vec<u8>| l@),
                insert_pos(prev, x@, p as int) == insert_pos(prev, x@, 0),
            decreases sorted@.len() - p,
        {
            p = p + 1;
        }
        let ghost xv = x@;
        sorted.insert(p, x);
        proof {
            assert(input.subrange(done as int, total as int)[0] == xv);
            assert(input.subrange(0, done + 1).drop_last() =~= input.subrange(0, done as int));
            assert(input.subrange(0, done + 1).last() == xv);
            assert(sorted@.map_values(|l: Vec<u8>| l@) =~= prev.insert(p as int, xv));
        }
        done = done + 1;
    }
    proof {
        assert(input.subrange(0, total as int) =~= input);
    }
    sorted
}

/// The lines joined by `sep`.
pub fn join_lines_with(lines: &Vec<Vec<u8>>, sep: &[u8]) -> (out: Vec<u8>)
    ensures
        out@ == join_with(lines@.map_values(|l: Vec<u8>| l@), sep@),
{
    let ghost all = lines@.map_values(|l: Vec<u8>| l@);
    let mut out: Vec<u8> = Vec::new();
    let n = lines.len();
    let mut i: usize = 0;
    while i < n
        invariant
            i <= n,
            n == lines@.len(),
            all == lines@.map_values(|l: Vec<u8>| l@),
            out@ == join_with(all.subrange(0, i as int), sep@),
        decreases n - i,
    {
        let ghost prev = out@;
        if i > 0 {
            let mut k: usize = 0;
            while k < sep.len()
                invariant
                    k <= sep@.len(),
                    out@ =~= prev + sep@.subrange(0, k as int),
                decreases sep@.len() - k,
            {
                out.push(sep[k]);
                k = k + 1;
            }
        }
        let ghost mid = out@;
        let line = &lines[i];
        let mut k: usize = 0;
        while k < line.len()
            invariant
                k <= line@.len(),
                out@ =~= mid + line@.subrange(0, k as int),
            decreases line@.len() - k,
        {
            out.push(line[k]);
            k = k + 1;
        }
        proof {
            let s = all.subrange(0, i + 1);
            assert(s.drop_last() =~= all.subrange(0, i as int));
            assert(s.last() == line@);
            assert(line@.subrange(0, line@.len() as int) =~= line@);
            assert(sep@.subrange(0, sep@.len() as int) =~= sep@);
            if i == 0 {
                assert(out@ =~= join_with(s, sep@));
            } else {
                assert(out@ =~= join_with(s, sep@));
            }
        }
        i = i + 1;
    }
    proof {
        assert(all.subrange(0, n as int) =~= all);
    }
    out
}

} // verus!
