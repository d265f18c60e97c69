//! Edit distance and the known directive nearest to a misspelled one.
use vstd::prelude::*;

verus! {

broadcast use vstd::string::axiom_spec_iter;

/// The characters of a string.
pub fn chars_of(s: &str) -> (v: Vec<char>)
    ensures
        v@ == s@,
{
    let mut v: Vec<char> = Vec::new();
    for c in it: s.chars()
        invariant
            v@ == it.seq().subrange(0, it.index() as int),
            it.seq() == s@,
    {
        v.push(c);
    }
    v
}

pub open spec fn min3(a: int, b: int, c: int) -> int {
    let m = if a <= b {
        a
    } else {
        b
    };
    if m <= c {
        m
    } else {
        c
    }
}

/// Levenshtein distance between the first `i` characters of `a` and the first `j` of `b`.
pub open spec fn lev(a: Seq<char>, b: Seq<char>, i: int, j: int) -> int
    decreases i + j,
{
    if i <= 0 {
        if j <= 0 {
            0
        } else {
            j
        }
    } else if j <= 0 {
        i
    } else {
        min3(
            lev(a, b, i - 1, j) + 1,
            lev(a, b, i, j - 1) + 1,
            lev(a, b, i - 1, j - 1) + if a[i - 1] == b[j - 1] {
                0int
            } else {
                1int
            },
        )
    }
}

/// The number of single-character insertions, deletions and substitutions that turn
/// `a` into `b`.
pub open spec fn edit_distance(a: Seq<char>, b: Seq<char>) -> int {
    lev(a, b, a.len() as int, b.len() as int)
}

fn min_u128(x: u128, y: u128) -> (m: u128)
    ensures
        m == if x <= y {
            x
        } else {
            y
        },
{
    if x <= y {
        x
    } else {
        y
    }
}

/// Levenshtein distance between two character sequences.
pub fn levenshtein_chars(left: &Vec<char>, right: &Vec<char>) -> (d: usize)
    ensures
        d == edit_distance(left@, right@),
{
    let la = left.len();
    let lb = right.len();
    let mut prev: Vec<u128> = Vec::new();
    prev.push(0);
    let mut k: usize = 0;
    while k < lb
        invariant
            k <= lb,
            lb == right@.len(),
            prev@.len() == k + 1,
            forall|x: int| 0 <= x <= k ==> prev@[x] == lev(left@, right@, 0, x) && prev@[x] <= x,
        decreases lb - k,
    {
        prev.push((k + 1) as u128);
        k = k + 1;
    }
    let mut i: usize = 0;
    while i < la
        invariant
            i <= la,
            la == left@.len(),
            lb == right@.len(),
            prev@.len() == lb + 1,
            forall|x: int|
                0 <= x <= lb ==> prev@[x] == lev(left@, right@, i as int, x) && prev@[x] <= if i
                    <= x {
                    x
                } else {
                    i as int
                },
        decreases la - i,
    {
        let mut current: Vec<u128> = Vec::new();
        current.push((i + 1) as u128);
        let mut j: usize = 0;
        while j < lb
            invariant
                i < la,
                j <= lb,
                la == left@.len(),
                lb == right@.len(),
                prev@.len() == lb + 1,
                current@.len() == j + 1,
                forall|x: int|
                    0 <= x <= lb ==> prev@[x] == lev(left@, right@, i as int, x) && prev@[x] <= if i
                        <= x {
                        x
                    } else {
                        i as int
                    },
                forall|x: int|
                    0 <= x <= j ==> current@[x] == lev(left@, right@, i + 1, x) && current@[x] <= if i
                        + 1 <= x {
                        x
                    } else {
                        i + 1
                    },
            decreases lb - j,
        {
            let cost: u128 = if left[i] == right[j] {
                0
            } else {
                1
            };
            let a = prev[j + 1] + 1;
            let b = current[j] + 1;
            let c = prev[j] + cost;
            let m = min_u128(min_u128(a, b), c);
            current.push(m);
            proof {
                assert(lev(left@, right@, i + 1, j + 1) == min3(
                    lev(left@, right@, i as int, j + 1) + 1,
                    lev(left@, right@, i + 1, j as int) + 1,
                    lev(left@, right@, i as int, j as int) + if left@[i as int] == right@[j as int] {
                        0int
                    } else {
                        1int
                    },
                ));
            }
            j = j + 1;
        }
        prev = current;
        i = i + 1;
    }
    let d = prev[lb];
    d as usize
}

/// Levenshtein distance between two strings, counted in characters.
pub fn levenshtein(left: &str, right: &str) -> (d: usize)
    ensures
        d == edit_distance(left@, right@),
{
    let l = chars_of(left);
    let r = chars_of(right);
    levenshtein_chars(&l, &r)
}

/// ASCII lower case of a character; other characters stay as they are.
pub open spec fn lower_char(c: char) -> char {
    if 'A' <= c <= 'Z' {
        ((c as u32) + 32) as char
    } else {
        c
    }
}

pub open spec fn lower_chars(s: Seq<char>) -> Seq<char> {
    s.map_values(|c: char| lower_char(c))
}

pub fn lower_char_exec(c: char) -> (r: char)
    ensures
        r == lower_char(c),
{
    if 'A' <= c && c <= 'Z' {
        let x: u8 = c as u8;
        proof {
            assert(x == c as u32);
        }
        (x + 32) as char
    } else {
        c
    }
}

/// The directives that the language defines, in the order suggestions prefer them.
pub open spec fn known_directives() -> Seq<Seq<char>> {
    seq![
        "@luma"@,
        "@profile"@,
        "@schema"@,
        "@import"@,
        "@include"@,
        "@use"@,
        "@lua"@,
        "@meta"@,
    ]
}

pub fn known_directive(k: usize) -> (name: &'static str)
    requires
        k < 8,
    ensures
        name@ == known_directives()[k as int],
{
    if k == 0 {
        "@luma"
    } else if k == 1 {
        "@profile"
    } else if k == 2 {
        "@schema"
    } else if k == 3 {
        "@import"
    } else if k == 4 {
        "@include"
    } else if k == 5 {
        "@use"
    } else if k == 6 {
        "@lua"
    } else {
        "@meta"
    }
}

/// The first known directive that the name equals, ASCII case ignored.
pub open spec fn exact_directive(name: Seq<char>, k: int) -> Option<int>
    decreases 8 - k,
{
    if k >= 8 || k < 0 {
        None
    } else if lower_chars(name) == known_directives()[k] {
        Some(k)
    } else {
        exact_directive(name, k + 1)
    }
}

/// Among the first `k` known directives, the first of least edit distance from the lower-cased
/// name, if that distance is at most two.
pub open spec fn nearest_directive(name: Seq<char>, k: int) -> Option<int>
    decreases k,
{
    if k <= 0 {
        None
    } else {
        let best = nearest_directive(name, k - 1);
        let d = edit_distance(lower_chars(name), known_directives()[k - 1]);
        if d <= 2 && (best matches Some(b) ==> d < edit_distance(
            lower_chars(name),
            known_directives()[b],
        )) {
            Some(k - 1)
        } else {
            best
        }
    }
}

/// The directive that a name most likely means: the known one it equals ignoring ASCII case,
/// else the nearest within two edits.
pub open spec fn suggestion_for(name: Seq<char>) -> Option<int> {
    match exact_directive(name, 0) {
        Some(k) => Some(k),
        None => nearest_directive(name, 8),
    }
}

proof fn lemma_exact_range(name: Seq<char>, k: int)
    ensures
        exact_directive(name, k) matches Some(x) ==> 0 <= x < 8,
    decreases 8 - k,
{
    if 0 <= k < 8 {
        lemma_exact_range(name, k + 1);
    }
}

proof fn lemma_nearest_range(name: Seq<char>, k: int)
    ensures
        nearest_directive(name, k) matches Some(x) ==> 0 <= x < k,
    decreases k,
{
    if k > 0 {
        lemma_nearest_range(name, k - 1);
    }
}

fn chars_eq(a: &Vec<char>, b: &Vec<char>) -> (r: bool)
    ensures
        r == (a@ == b@),
{
    if a.len() != b.len() {
        return false;
    }
    let mut i: usize = 0;
    while i < a.len()
        invariant
            i <= a@.len(),
            a@.len() == b@.len(),
            forall|x: int| 0 <= x < i ==> a@[x] == b@[x],
        decreases a@.len() - i,
    {
        if a[i] != b[i] {
            return false;
        }
        i = i + 1;
    }
    proof {
        assert(a@ =~= b@);
    }
    true
}

/// The known directive that a (possibly misspelled) directive name stands for.
pub fn best_directive_suggestion(name: &str) -> (r: Option<&'static str>)
    ensures
        match suggestion_for(name@) {
            Some(k) => r matches Some(s) && s@ == known_directives()[k],
            None => r is None,
        },
{
    let chars = chars_of(name);
    let mut lowered: Vec<char> = Vec::new();
    let mut i: usize = 0;
    while i < chars.len()
        invariant
            i <= chars@.len(),
            chars@ == name@,
            lowered@ =~= lower_chars(name@).subrange(0, i as int),
        decreases chars@.len() - i,
    {
        lowered.push(lower_char_exec(chars[i]));
        i = i + 1;
    }
    proof {
        assert(lowered@ =~= lower_chars(name@));
        lemma_exact_range(name@, 0);
    }
    let mut k: usize = 0;
    while k < 8
        invariant
            k <= 8,
            lowered@ == lower_chars(name@),
            exact_directive(name@, 0) == exact_directive(name@, k as int),
        decreases 8 - k,
    {
        let candidate = chars_of(known_directive(k));
        if chars_eq(&lowered, &candidate) {
            return Some(known_directive(k));
        }
        k = k + 1;
    }
    let mut best: Option<(usize, usize)> = None;
    let mut k: usize = 0;
    while k < 8
        invariant
            k <= 8,
            lowered@ == lower_chars(name@),
            exact_directive(name@, 0) is None,
            match nearest_directive(name@, k as int) {
                Some(b) => best matches Some((bi, bd)) && bi == b && bd == edit_distance(
                    lower_chars(name@),
                    known_directives()[b],
                ),
                None => best is None,
            },
        decreases 8 - k,
    {
        let candidate = chars_of(known_directive(k));
        let d = levenshtein_chars(&lowered, &candidate);
        let better = match best {
            Some((_, bd)) => d < bd,
            None => true,
        };
        if d <= 2 && better {
            best = Some((k, d));
        }
        k = k + 1;
    }
    proof {
        lemma_nearest_range(name@, 8);
    }
    match best {
        Some((bi, _)) => Some(known_directive(bi)),
        None => None,
    }
}

} // verus!
