//! Small verified text-building utilities shared by the emitters: decimal
//! rendering, the deterministic label hash behind generated token names,
//! string-literal escaping, and spec-level concatenation helpers.
use vstd::prelude::*;
use vstd::string::StringExecFns;

verus! {

/// Relies on std's `String::push`: appends the given character to the end of
/// this `String`.
pub assume_specification[ String::push ](s: &mut String, ch: char)
    ensures
        final(s)@ == old(s)@ + seq![ch],
;

/// Concatenation of `f` mapped over `s`, left to right.
pub open spec fn cat_map<A>(s: Seq<A>, f: spec_fn(A) -> Seq<char>) -> Seq<char>
    decreases s.len(),
{
    if s.len() == 0 {
        Seq::empty()
    } else {
        cat_map(s.drop_last(), f) + f(s.last())
    }
}

/// Unfolding step for `cat_map` over a growing prefix.
pub proof fn lemma_cat_map_take<A>(s: Seq<A>, f: spec_fn(A) -> Seq<char>, i: int)
    requires
        0 <= i < s.len(),
    ensures
        cat_map(s.take(i + 1), f) == cat_map(s.take(i), f) + f(s[i]),
{
    assert(s.take(i + 1).drop_last() =~= s.take(i));
    assert(s.take(i + 1).last() == s[i]);
}

/// `f` mapped over `s` and joined with the separator `sep`.
pub open spec fn join_map<A>(s: Seq<A>, f: spec_fn(A) -> Seq<char>, sep: Seq<char>) -> Seq<char>
    decreases s.len(),
{
    if s.len() == 0 {
        Seq::empty()
    } else if s.len() == 1 {
        f(s.last())
    } else {
        join_map(s.drop_last(), f, sep) + sep + f(s.last())
    }
}

/// Unfolding step for `join_map` over a growing prefix.
pub proof fn lemma_join_map_take<A>(s: Seq<A>, f: spec_fn(A) -> Seq<char>, sep: Seq<char>, i: int)
    requires
        0 <= i < s.len(),
    ensures
        i == 0 ==> join_map(s.take(1), f, sep) == f(s[0]),
        i > 0 ==> join_map(s.take(i + 1), f, sep) == join_map(s.take(i), f, sep) + sep + f(s[i]),
{
    assert(s.take(i + 1).drop_last() =~= s.take(i));
    assert(s.take(i + 1).last() == s[i]);
    if i == 0 {
        assert(s.take(1).len() == 1);
    }
}

pub open spec fn spec_dec_digit(d: int) -> char {
    if d == 0 {
        '0'
    } else if d == 1 {
        '1'
    } else if d == 2 {
        '2'
    } else if d == 3 {
        '3'
    } else if d == 4 {
        '4'
    } else if d == 5 {
        '5'
    } else if d == 6 {
        '6'
    } else if d == 7 {
        '7'
    } else if d == 8 {
        '8'
    } else {
        '9'
    }
}

/// Decimal rendering of a non-negative integer, most significant digit first.
pub open spec fn spec_dec(n: int) -> Seq<char>
    decreases n,
{
    if n < 10 {
        seq![spec_dec_digit(n)]
    } else {
        spec_dec(n / 10) + seq![spec_dec_digit(n % 10)]
    }
}

fn dec_digit(d: u64) -> (r: char)
    requires
        d < 10,
    ensures
        r == spec_dec_digit(d as int),
{
    if d == 0 {
        '0'
    } else if d == 1 {
        '1'
    } else if d == 2 {
        '2'
    } else if d == 3 {
        '3'
    } else if d == 4 {
        '4'
    } else if d == 5 {
        '5'
    } else if d == 6 {
        '6'
    } else if d == 7 {
        '7'
    } else if d == 8 {
        '8'
    } else {
        '9'
    }
}

/// Renders `n` in decimal.
pub fn dec_u64(n: u64) -> (r: String)
    ensures
        r@ == spec_dec(n as int),
    decreases n,
{
    if n < 10 {
        let mut s = String::new();
        s.push(dec_digit(n));
        s
    } else {
        let mut s = dec_u64(n / 10);
        s.push(dec_digit(n % 10));
        s
    }
}

pub const FNV_OFFSET: u64 = 0xcbf29ce484222325;

pub const FNV_PRIME: u64 = 0x100000001b3;

pub open spec fn fnv_step(h: u64, c: char) -> u64 {
    vstd::wrapping::u64_specs::wrapping_mul(h ^ ((c as u32) as u64), FNV_PRIME)
}

/// The deterministic label hash: FNV-1a folded over the label's characters.
pub open spec fn spec_fnv(s: Seq<char>) -> u64
    decreases s.len(),
{
    if s.len() == 0 {
        FNV_OFFSET
    } else {
        fnv_step(spec_fnv(s.drop_last()), s.last())
    }
}

fn fnv_step_exec(h: u64, c: char) -> (r: u64)
    ensures
        r == fnv_step(h, c),
{
    let x: u64 = h ^ ((c as u32) as u64);
    x.wrapping_mul(FNV_PRIME)
}

/// Hashes a label's characters with FNV-1a.
pub fn fnv_hash(s: &str) -> (r: u64)
    ensures
        r == spec_fnv(s@),
{
    let n = s.unicode_len();
    let mut h: u64 = FNV_OFFSET;
    let mut i: usize = 0;
    while i < n
        invariant
            i <= n,
            n == s@.len(),
            h == spec_fnv(s@.take(i as int)),
        decreases n - i,
    {
        let c = s.get_char(i);
        h = fnv_step_exec(h, c);
        proof {
            assert(s@.take(i + 1).drop_last() =~= s@.take(i as int));
            assert(s@.take(i + 1).last() == s@[i as int]);
        }
        i = i + 1;
    }
    proof {
        assert(s@.take(n as int) =~= s@);
    }
    h
}

/// Escaping of one character for use inside a double-quoted literal.
pub open spec fn esc_char(c: char) -> Seq<char> {
    if c == '"' || c == '\\' {
        seq!['\\', c]
    } else {
        seq![c]
    }
}

/// Escaping of a whole label for use inside a double-quoted literal.
pub open spec fn spec_escape(s: Seq<char>) -> Seq<char>
    decreases s.len(),
{
    cat_map(s, |c: char| esc_char(c))
}

/// Appends `s` with `"` and `\` escaped by a backslash.
pub fn push_escaped(out: &mut String, s: &str)
    ensures
        final(out)@ == old(out)@ + spec_escape(s@),
{
    let n = s.unicode_len();
    let mut i: usize = 0;
    while i < n
        invariant
            i <= n,
            n == s@.len(),
            out@ == old(out)@ + spec_escape(s@.take(i as int)),
        decreases n - i,
    {
        let c = s.get_char(i);
        if c == '"' || c == '\\' {
            out.push('\\');
            out.push(c);
        } else {
            out.push(c);
        }
        proof {
            lemma_cat_map_take(s@, |c: char| esc_char(c), i as int);
            assert(out@ =~= old(out)@ + spec_escape(s@.take(i + 1)));
        }
        i = i + 1;
    }
    proof {
        assert(s@.take(n as int) =~= s@);
    }
}

/// Joins the views of `parts` with `sep` between consecutive elements.
pub open spec fn spec_join(parts: Seq<Seq<char>>, sep: Seq<char>) -> Seq<char> {
    join_map(parts, |p: Seq<char>| p, sep)
}

/// Appends the elements of `parts` joined by `sep`.
pub fn push_joined(out: &mut String, parts: &Vec<String>, sep: &str)
    ensures
        final(out)@ == old(out)@ + spec_join(parts@.map_values(|p: String| p@), sep@),
{
    let ghost views = parts@.map_values(|p: String| p@);
    let mut i: usize = 0;
    while i < parts.len()
        invariant
            i <= parts.len(),
            views == parts@.map_values(|p: String| p@),
            out@ == old(out)@ + spec_join(views.take(i as int), sep@),
        decreases parts.len() - i,
    {
        if i > 0 {
            out.append(sep);
        }
        out.append(parts[i].as_str());
        proof {
            lemma_join_map_take(views, |p: Seq<char>| p, sep@, i as int);
            assert(out@ =~= old(out)@ + spec_join(views.take(i + 1), sep@));
        }
        i = i + 1;
    }
    proof {
        assert(views.take(parts@.len() as int) =~= views);
    }
}

} // verus!
