//! The dotted path of a mapping key, read from the indentation of the lines above it.
use vstd::prelude::*;
use vstd::utf8::valid_utf8;

use crate::code_actions::organize::{join_lines_with, join_with};
use crate::formatting::{trim_bounds, trim_bounds_plain};
use crate::text::{
    find_byte, find_byte_exec, find_pat, find_pat_exec, lemma_find_byte_bounds, lemma_find_pat_bounds,
    lemma_run_of_bounds, run_of, utf8,
};

verus! {

pub open spec fn lit(s: &str) -> Seq<u8> {
    utf8(s@)
}

/// "document[1]"
pub open spec fn first_document() -> Seq<u8> {
    seq![0x64u8, 0x6fu8, 0x63u8, 0x75u8, 0x6du8, 0x65u8, 0x6eu8, 0x74u8, 0x5bu8, 0x31u8, 0x5du8]
}

/// "let "
pub open spec fn let_word() -> Seq<u8> {
    seq![0x6cu8, 0x65u8, 0x74u8, 0x20u8]
}

/// End of the line that starts at `p`: its line feed, or the end of the text.
pub open spec fn nl_end(b: Seq<u8>, p: int) -> int {
    match find_byte(b, p, b.len() as int, 0x0a) {
        Some(q) => q,
        None => b.len() as int,
    }
}

/// The keys being inside of, dropped down to the ones less indented than `indent` (the
/// document's root stays).
pub open spec fn pop_deeper(stack: Seq<(int, Seq<u8>)>, indent: int) -> Seq<(int, Seq<u8>)>
    decreases stack.len(),
{
    if stack.len() > 1 && stack.last().0 >= indent + 1 {
        pop_deeper(stack.drop_last(), indent)
    } else {
        stack
    }
}

pub enum KeyStep {
    Found(Seq<u8>),
    Missing,
    Next(Seq<(int, Seq<u8>)>),
}

/// What one line contributes: lines that are blank, comments, directives, let bindings,
/// list items or hold no colon change nothing; a key line closes the deeper keys, answers
/// when it is the key looked for, and opens a level when its value is empty.
pub open spec fn key_line_step(line: Seq<u8>, start: int, stack: Seq<(int, Seq<u8>)>, target: int) -> KeyStep {
    let (ts, te) = trim_bounds(line);
    let t = line.subrange(ts, te);
    if t.len() == 0 || t[0] == 0x23 || t[0] == 0x40 || (t.len() >= 4 && t.subrange(0, 4) == let_word()) {
        KeyStep::Next(stack)
    } else {
        let indent = run_of(line, 0, line.len() as int, 0x20);
        match find_byte(t, 0, t.len() as int, 0x3a) {
            None => KeyStep::Next(stack),
            Some(c) => if c > 0 && t[0] == 0x2d {
                KeyStep::Next(stack)
            } else {
                let raw_key = t.subrange(0, c);
                let raw_value = t.subrange(c + 1, t.len() as int);
                let popped = pop_deeper(stack, indent);
                let key = raw_key.subrange(trim_bounds(raw_key).0, trim_bounds(raw_key).1);
                match find_pat(line, 0, line.len() as int, key) {
                    None => KeyStep::Missing,
                    Some(f) => if start + f == target {
                        KeyStep::Found(
                            join_with(popped.map_values(|e: (int, Seq<u8>)| e.1).push(key), seq![0x2eu8]),
                        )
                    } else if trim_bounds(raw_value).0 == trim_bounds(raw_value).1 {
                        KeyStep::Next(popped.push((indent + 1, key)))
                    } else {
                        KeyStep::Next(popped)
                    },
                }
            },
        }
    }
}

/// The path of the key that starts at `target`, reading the lines from `p` on.
pub open spec fn key_path_from(b: Seq<u8>, p: int, stack: Seq<(int, Seq<u8>)>, target: int) -> Option<Seq<u8>>
    decreases b.len() + 1 - p,
{
    if p < 0 || p > b.len() {
        None
    } else {
        let e = nl_end(b, p);
        proof {
            lemma_nl_end(b, p);
        }
        if e < p {
            None
        } else {
            match key_line_step(b.subrange(p, e), p, stack, target) {
                KeyStep::Found(path) => Some(path),
                KeyStep::Missing => None,
                KeyStep::Next(s) => key_path_from(b, e + 1, s, target),
            }
        }
    }
}

/// The path of the key that starts at `target`: the keys above it whose lines it is
/// indented under, from `document[1]` down, joined by dots.
pub open spec fn key_path_spec(b: Seq<u8>, target: int) -> Option<Seq<u8>> {
    key_path_from(b, 0, seq![(0int, first_document())], target)
}

pub proof fn lemma_nl_end(b: Seq<u8>, p: int)
    requires
        0 <= p <= b.len(),
    ensures
        p <= nl_end(b, p) <= b.len(),
        nl_end(b, p) < b.len() ==> b[nl_end(b, p)] == 0x0a,
{
    lemma_find_byte_bounds(b, p, b.len() as int, 0x0a);
}

pub open spec fn stack_view(s: Seq<(usize, Vec<u8>)>) -> Seq<(int, Seq<u8>)> {
    s.map_values(|e: (usize, Vec<u8>)| (e.0 as int, e.1@))
}

pub open spec fn names_valid(s: Seq<(int, Seq<u8>)>) -> bool {
    forall|k: int| 0 <= k < s.len() ==> valid_utf8(#[trigger] s[k].1)
}

proof fn lemma_pop_valid(s: Seq<(int, Seq<u8>)>, indent: int)
    requires
        names_valid(s),
    ensures
        names_valid(pop_deeper(s, indent)),
    decreases s.len(),
{
    if s.len() > 1 && s.last().0 >= indent + 1 {
        assert(names_valid(s.drop_last())) by {
            assert forall|k: int| 0 <= k < s.drop_last().len() implies valid_utf8(#[trigger] s.drop_last()[k].1) by {
                assert(s.drop_last()[k] == s[k]);
            }
        }
        lemma_pop_valid(s.drop_last(), indent);
    }
}

fn copy_piece(b: &[u8], lo: usize, hi: usize) -> (out: Vec<u8>)
    requires
        lo <= hi <= b@.len(),
    ensures
        out@ == b@.subrange(lo as int, hi as int),
{
    let mut out: Vec<u8> = Vec::new();
    crate::text::push_range(&mut out, b, lo, hi);
    proof {
        assert(out@ =~= b@.subrange(lo as int, hi as int));
    }
    out
}

fn pop_deeper_exec(stack: &mut Vec<(usize, Vec<u8>)>, indent: usize)
    ensures
        stack_view(final(stack)@) == pop_deeper(stack_view(old(stack)@), indent as int),
{
    loop
        invariant
            pop_deeper(stack_view(stack@), indent as int) == pop_deeper(stack_view(old(stack)@), indent as int),
        decreases stack@.len(),
    {
        let n = stack.len();
        if n > 1 && stack[n - 1].0 > indent {
            let ghost before = stack@;
            stack.pop();
            proof {
                assert(stack_view(stack@) =~= stack_view(before).drop_last());
            }
        } else {
            return;
        }
    }
}

fn starts_with_let(t: &[u8]) -> (r: bool)
    ensures
        r == (t@.len() >= 4 && t@.subrange(0, 4) == let_word()),
{
    if t.len() < 4 {
        return false;
    }
    let r = t[0] == 0x6c && t[1] == 0x65 && t[2] == 0x74 && t[3] == 0x20;
    proof {
        if r {
            assert(t@.subrange(0, 4) =~= let_word());
        } else {
            assert(t@.subrange(0, 4)[0] == t@[0]);
            assert(t@.subrange(0, 4)[1] == t@[1]);
            assert(t@.subrange(0, 4)[2] == t@[2]);
            assert(t@.subrange(0, 4)[3] == t@[3]);
        }
    }
    r
}

fn names_of(stack: &Vec<(usize, Vec<u8>)>, key: &Vec<u8>) -> (names: Vec<Vec<u8>>)
    ensures
        names@.map_values(|v: Vec<u8>| v@) == stack_view(stack@).map_values(|e: (int, Seq<u8>)| e.1).push(key@),
{
    let ghost sv = stack_view(stack@).map_values(|e: (int, Seq<u8>)| e.1);
    let mut names: Vec<Vec<u8>> = Vec::new();
    let n = stack.len();
    let mut i: usize = 0;
    while i < n
        invariant
            i <= n,
            n == stack@.len(),
            sv == stack_view(stack@).map_values(|e: (int, Seq<u8>)| e.1),
            names@.map_values(|v: Vec<u8>| v@) =~= sv.subrange(0, i as int),
        decreases n - i,
    {
        let part = &stack[i].1;
        let ghost prev = names@;
        names.push(copy_piece(part.as_slice(), 0, part.len()));
        proof {
            assert(part@.subrange(0, part@.len() as int) =~= part@);
            assert(sv[i as int] == part@);
            assert(names@.map_values(|v: Vec<u8>| v@) =~= prev.map_values(|v: Vec<u8>| v@).push(part@));
            assert(sv.subrange(0, i + 1) =~= sv.subrange(0, i as int).push(sv[i as int]));
        }
        i = i + 1;
    }
    let ghost prev = names@;
    names.push(copy_piece(key.as_slice(), 0, key.len()));
    proof {
        assert(key@.subrange(0, key@.len() as int) =~= key@);
        assert(names@.map_values(|v: Vec<u8>| v@) =~= prev.map_values(|v: Vec<u8>| v@).push(key@));
        assert(sv.subrange(0, n as int) =~= sv);
    }
    names
}

enum LineOutcome {
    Found(Vec<u8>),
    Missing,
    Next,
}

/// One line of the search; the stack becomes the one the line leaves.
fn key_line(b: &[u8], p: usize, e: usize, stack: &mut Vec<(usize, Vec<u8>)>, target: usize) -> (r: LineOutcome)
    requires
        p <= e <= b@.len(),
        b@.len() < usize::MAX,
        valid_utf8(b@),
        crate::text::char_boundary(b@, p as int),
        crate::text::char_boundary(b@, e as int),
        names_valid(stack_view(old(stack)@)),
    ensures
        names_valid(stack_view(final(stack)@)),
        r matches LineOutcome::Found(x) ==> valid_utf8(x@),
        match key_line_step(b@.subrange(p as int, e as int), p as int, stack_view(old(stack)@), target as int) {
            KeyStep::Found(path) => r matches LineOutcome::Found(x) && x@ == path,
            KeyStep::Missing => r is Missing,
            KeyStep::Next(s) => r is Next && stack_view(final(stack)@) == s,
        },
{
    let line = copy_piece(b, p, e);
    let l = line.as_slice();
    let ghost lv = l@;
    proof {
        crate::text::lemma_valid_subrange(b@, p as int, e as int);
    }
    let n = l.len();
    let (ts, te) = crate::formatting::trim_bounds_exec(l);
    let t = copy_piece(l, ts, te);
    proof {
        crate::text::lemma_valid_subrange(lv, ts as int, te as int);
    }
    if t.len() == 0 || t[0] == 0x23 || t[0] == 0x40 || starts_with_let(t.as_slice()) {
        return LineOutcome::Next;
    }
    proof {
        lemma_run_of_bounds(lv, 0, n as int, 0x20);
    }
    let indent = crate::text::count_run(l, 0, n, 0x20);
    proof {
        lemma_find_byte_bounds(t@, 0, t@.len() as int, 0x3a);
    }
    let c = match find_byte_exec(t.as_slice(), 0, t.len(), 0x3a) {
        Some(c) => c,
        None => {
            return LineOutcome::Next;
        },
    };
    if c > 0 && t[0] == 0x2d {
        return LineOutcome::Next;
    }
    let raw_key = copy_piece(t.as_slice(), 0, c);
    let raw_value = copy_piece(t.as_slice(), c + 1, t.len());
    proof {
        crate::text::lemma_valid_subrange(t@, 0, c as int);
    }
    pop_deeper_exec(stack, indent);
    proof {
        lemma_pop_valid(stack_view(old(stack)@), indent as int);
    }
    let (ks, ke) = crate::formatting::trim_bounds_exec(raw_key.as_slice());
    let key = copy_piece(raw_key.as_slice(), ks, ke);
    proof {
        crate::text::lemma_valid_subrange(raw_key@, ks as int, ke as int);
    }
    proof {
        lemma_find_pat_bounds(lv, 0, n as int, key@);
    }
    let f = match find_pat_exec(l, 0, n, key.as_slice()) {
        Some(f) => f,
        None => {
            return LineOutcome::Missing;
        },
    };
    if p + f == target {
        let names = names_of(stack, &key);
        let sep: [u8; 1] = [0x2e];
        proof {
            assert(sep@ =~= seq![0x2eu8]);
            crate::text::lemma_ascii_valid(sep@);
            let nv = names@.map_values(|v: Vec<u8>| v@);
            assert forall|k: int| 0 <= k < nv.len() implies valid_utf8(#[trigger] nv[k]) by {
                let sv = stack_view(stack@);
                if k < sv.len() {
                    assert(nv[k] == sv.map_values(|e: (int, Seq<u8>)| e.1)[k]);
                    assert(valid_utf8(sv[k].1));
                }
            }
            crate::code_actions::selection::lemma_join_valid(nv, sep@);
        }
        return LineOutcome::Found(join_lines_with(&names, sep.as_slice()));
    }
    let (vs, ve) = trim_bounds_plain(raw_value.as_slice());
    if vs == ve {
        let ghost before = stack@;
        stack.push((indent + 1, key));
        proof {
            assert(stack_view(stack@) =~= stack_view(before).push(((indent + 1) as int, key@)));
        }
    }
    LineOutcome::Next
}

/// The dotted path of the key that starts at `key_start`, if a key line starts there.
pub fn key_path(source: &crate::syntax::SourceText, key_start: usize) -> (r: Option<String>)
    requires
        source.bytes().len() < usize::MAX,
    ensures
        match key_path_spec(source.bytes(), key_start as int) {
            Some(path) => r matches Some(x) && utf8(x@) == path,
            None => r is None,
        },
{
    let b = source.as_str().as_bytes();
    proof {
        crate::text::lemma_str_valid(source.text@);
    }
    let n = b.len();
    let mut stack: Vec<(usize, Vec<u8>)> = Vec::new();
    let mut root: Vec<u8> = Vec::new();
    root.push(0x64);
    root.push(0x6f);
    root.push(0x63);
    root.push(0x75);
    root.push(0x6d);
    root.push(0x65);
    root.push(0x6e);
    root.push(0x74);
    root.push(0x5b);
    root.push(0x31);
    root.push(0x5d);
    proof {
        assert(root@ =~= first_document());
        assert forall|k: int| 0 <= k < root@.len() implies #[trigger] crate::text::is_ascii_byte(root@[k]) by {
        }
        crate::text::lemma_ascii_valid(root@);
    }
    stack.push((0, root));
    proof {
        assert(stack_view(stack@) =~= seq![(0int, first_document())]);
    }
    let mut p: usize = 0;
    while p <= n
        invariant
            p <= n + 1,
            n == b@.len(),
            n < usize::MAX,
            b@ == source.bytes(),
            valid_utf8(b@),
            p <= n ==> crate::text::char_boundary(b@, p as int),
            names_valid(stack_view(stack@)),
            key_path_from(b@, p as int, stack_view(stack@), key_start as int) == key_path_spec(
                b@,
                key_start as int,
            ),
        decreases n + 1 - p,
    {
        proof {
            lemma_nl_end(b@, p as int);
            lemma_find_byte_bounds(b@, p as int, n as int, 0x0a);
        }
        let e = match find_byte_exec(b, p, n, 0x0a) {
            Some(q) => q,
            None => n,
        };
        proof {
            if e < n {
                crate::text::lemma_boundary_after_ascii(b@, e as int);
            }
        }
        let ghost before = stack_view(stack@);
        proof {
            assert(nl_end(b@, p as int) == e);
            assert(key_path_from(b@, p as int, before, key_start as int) == match key_line_step(
                b@.subrange(p as int, e as int),
                p as int,
                before,
                key_start as int,
            ) {
                KeyStep::Found(path) => Some(path),
                KeyStep::Missing => None,
                KeyStep::Next(s) => key_path_from(b@, e + 1, s, key_start as int),
            });
        }
        match key_line(b, p, e, &mut stack, key_start) {
            LineOutcome::Found(x) => {
                return Some(crate::text::bytes_to_string(x));
            },
            LineOutcome::Missing => {
                return None;
            },
            LineOutcome::Next => {},
        }
        p = e + 1;
    }
    None
}

} // verus!
