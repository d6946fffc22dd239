use vstd::prelude::*;

verus! {

/// `pat` stands in `t` from position `i` on.
pub open spec fn occurs_at(t: Seq<char>, pat: Seq<char>, i: int) -> bool {
    0 <= i && i + pat.len() <= t.len() && t.subrange(i, i + pat.len()) == pat
}

/// The position of the first occurrence of `pat` in `t`, if any.
pub open spec fn first_occurrence(t: Seq<char>, pat: Seq<char>) -> Option<int> {
    if exists|i: int| occurs_at(t, pat, i) {
        Some(choose|i: int| occurs_at(t, pat, i) && forall|j: int| 0 <= j < i ==> !occurs_at(t, pat, j))
    } else {
        None
    }
}

proof fn lemma_first_exists(t: Seq<char>, pat: Seq<char>, k: int)
    requires
        occurs_at(t, pat, k),
    ensures
        exists|i: int| occurs_at(t, pat, i) && forall|j: int| 0 <= j < i ==> !occurs_at(t, pat, j),
    decreases k,
{
    if exists|j: int| 0 <= j < k && occurs_at(t, pat, j) {
        let j = choose|j: int| 0 <= j < k && occurs_at(t, pat, j);
        lemma_first_exists(t, pat, j);
    }
}

proof fn lemma_first_occurrence_bound(t: Seq<char>, pat: Seq<char>)
    ensures
        first_occurrence(t, pat) matches Some(i) ==> 0 <= i && i + pat.len() <= t.len(),
{
    if exists|i: int| occurs_at(t, pat, i) {
        let k = choose|i: int| occurs_at(t, pat, i);
        lemma_first_exists(t, pat, k);
    }
}

pub open spec fn min_cut(a: Option<int>, b: Option<int>) -> Option<int> {
    match (a, b) {
        (Some(x), Some(y)) => Some(if x <= y { x } else { y }),
        (Some(x), None) => Some(x),
        (None, y) => y,
    }
}

/// Where a completion is cut: at the first end-of-text token, the first blank
/// line, or, outside multiline mode, the first line break, whichever comes
/// first.
pub open spec fn cut_point(t: Seq<char>, eot: Seq<char>, multiline: bool) -> Option<int> {
    let c = min_cut(first_occurrence(t, eot), first_occurrence(t, "\n\n"@));
    if multiline {
        c
    } else {
        min_cut(c, first_occurrence(t, "\n"@))
    }
}

/// `s` without its carriage returns.
pub open spec fn strip_cr(s: Seq<char>) -> Seq<char>
    decreases s.len(),
{
    if s.len() == 0 {
        s
    } else if s.last() == '\r' {
        strip_cr(s.drop_last())
    } else {
        strip_cr(s.drop_last()).push(s.last())
    }
}

pub open spec fn spec_cut_result(t: Seq<char>, eot: Seq<char>, multiline: bool) -> Seq<char> {
    match cut_point(t, eot, multiline) {
        Some(c) => strip_cr(t.take(c)),
        None => t,
    }
}

/// Relies on str::chars: the characters of the string, in order.
#[verifier::external_body]
fn chars_of(s: &str) -> (r: Vec<char>)
    ensures
        r@ == s@,
{
    s.chars().collect()
}

/// Relies on String::push: appends one character.
#[verifier::external_body]
fn push_char(s: &mut String, c: char)
    ensures
        final(s)@ == old(s)@.push(c),
{
    s.push(c)
}

/// The first position at which `pat` stands in `t`.
fn find_chars(t: &Vec<char>, pat: &Vec<char>) -> (r: Option<usize>)
    ensures
        opt_int(r) == first_occurrence(t@, pat@),
{
    let n = t.len();
    let m = pat.len();
    if m > n {
        assert forall|i: int| !occurs_at(t@, pat@, i) by {}
        return None;
    }
    let mut i: usize = 0;
    while i <= n - m
        invariant
            n == t@.len(),
            m == pat@.len(),
            m <= n,
            0 <= i <= n - m + 1,
            forall|j: int| 0 <= j < i ==> !occurs_at(t@, pat@, j),
        decreases n - m + 1 - i,
    {
        let mut k: usize = 0;
        let mut same = true;
        while k < m && same
            invariant
                n == t@.len(),
                m == pat@.len(),
                i + m <= n,
                0 <= k <= m,
                same ==> forall|l: int| 0 <= l < k ==> t@[i + l] == pat@[l],
                !same ==> t@[i + k - 1] != pat@[k - 1] && 0 < k,
            decreases m - k + (if same { 1int } else { 0int }),
        {
            if t[i + k] != pat[k] {
                same = false;
            }
            k += 1;
        }
        if same {
            assert(t@.subrange(i as int, i + m) =~= pat@);
            assert(occurs_at(t@, pat@, i as int));
            let ghost c = choose|c: int| occurs_at(t@, pat@, c) && forall|j: int| 0 <= j < c ==> !occurs_at(t@, pat@, j);
            assert(c == i);
            return Some(i);
        } else {
            assert(!occurs_at(t@, pat@, i as int)) by {
                let sub = t@.subrange(i as int, i + m);
                assert(sub[k - 1] == t@[i + k - 1]);
            }
        }
        i += 1;
    }
    assert forall|j: int| !occurs_at(t@, pat@, j) by {}
    None
}

pub open spec fn opt_int(a: Option<usize>) -> Option<int> {
    match a {
        Some(v) => Some(v as int),
        None => None,
    }
}

fn min_opt(a: Option<usize>, b: Option<usize>) -> (r: Option<usize>)
    ensures
        opt_int(r) == min_cut(opt_int(a), opt_int(b)),
{
    match (a, b) {
        (Some(x), Some(y)) => Some(if x <= y { x } else { y }),
        (Some(x), None) => Some(x),
        (None, y) => y,
    }
}

fn find_cut(t: &Vec<char>, eot_token: &str, multiline: bool) -> (r: Option<usize>)
    ensures
        opt_int(r) == cut_point(t@, eot_token@, multiline),
        r matches Some(c) ==> c <= t@.len(),
{
    let eot = chars_of(eot_token);
    let blank = chars_of("\n\n");
    let newline = chars_of("\n");
    proof {
        lemma_first_occurrence_bound(t@, eot@);
        lemma_first_occurrence_bound(t@, blank@);
        lemma_first_occurrence_bound(t@, newline@);
    }
    let cut = min_opt(find_chars(t, &eot), find_chars(t, &blank));
    if !multiline {
        min_opt(cut, find_chars(t, &newline))
    } else {
        cut
    }
}

/// Cuts a generated completion at the first end-of-text token, blank line
/// or, outside multiline mode, line break, and drops the carriage returns of
/// what is kept. Text with none of these is returned whole.
pub fn cut_result(text: &str, eot_token: &str, multiline: bool) -> (r: String)
    ensures
        r@ == spec_cut_result(text@, eot_token@, multiline),
{
    let t = chars_of(text);
    let cut = find_cut(&t, eot_token, multiline);
    match cut {
        None => text.to_owned(),
        Some(c) => strip_cr_prefix(&t, c),
    }
}

/// The first `c` characters of `t`, without carriage returns.
fn strip_cr_prefix(t: &Vec<char>, c: usize) -> (r: String)
    requires
        c <= t@.len(),
    ensures
        r@ == strip_cr(t@.take(c as int)),
{
    let mut out = String::new();
    let mut i: usize = 0;
    assert(t@.take(0) =~= Seq::<char>::empty());
    while i < c
        invariant
            c <= t@.len(),
            0 <= i <= c,
            out@ == strip_cr(t@.take(i as int)),
        decreases c - i,
    {
        assert(t@.take(i + 1).drop_last() =~= t@.take(i as int));
        if t[i] != '\r' {
            push_char(&mut out, t[i]);
        }
        i += 1;
    }
    out
}

} // verus!
