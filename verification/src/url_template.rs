//! Tile URL templates.
//!
//! A template names the tile by `{x}`, `{y}` and `{z}`; a server that is
//! spread over several hosts is written with a placeholder, either a range
//! `{2-10}` (the numbers 2 to 9) or a list `{1,2,3}`. Each placeholder is
//! replaced by a variable `{s1}`, `{s2}`, ... and one of its numbers, picked at
//! random, is bound to that variable when the template is rendered.
use crate::text::{chars_of, decimal, decimal_string, digit_char, digits_value, is_ascii_digit, parse_digits, push_decimal, string_of};
use rand::seq::SliceRandom;
use vstd::prelude::*;

verus! {

/// The most placeholders a template may hold.
pub const MAX_PLACEHOLDERS: usize = 30;

/// `c` may stand inside a list placeholder.
pub open spec fn is_list_char(c: char) -> bool {
    is_ascii_digit(c) || c == ','
}

/// The number of ASCII digits that start at `i`.
pub open spec fn digit_run_len(t: Seq<char>, i: int) -> nat
    decreases t.len() - i,
{
    if 0 <= i < t.len() && is_ascii_digit(t[i]) {
        1 + digit_run_len(t, i + 1)
    } else {
        0
    }
}

/// The number of digits and commas that start at `i`.
pub open spec fn list_run_len(t: Seq<char>, i: int) -> nat
    decreases t.len() - i,
{
    if 0 <= i < t.len() && is_list_char(t[i]) {
        1 + list_run_len(t, i + 1)
    } else {
        0
    }
}

/// The position of the dash of a range placeholder that opens at `p`.
pub open spec fn range_dash(t: Seq<char>, p: int) -> int {
    p + 1 + digit_run_len(t, p + 1)
}

/// The position of the closing brace of a range placeholder that opens at `p`.
pub open spec fn range_close(t: Seq<char>, p: int) -> int {
    range_dash(t, p) + 1 + digit_run_len(t, range_dash(t, p) + 1)
}

/// The position of the closing brace of a list placeholder that opens at `p`.
pub open spec fn list_close(t: Seq<char>, p: int) -> int {
    p + 1 + list_run_len(t, p + 1)
}

/// `{digits-digits}` opens at `p`.
pub open spec fn range_placeholder_at(t: Seq<char>, p: int) -> bool {
    &&& 0 <= p < t.len()
    &&& t[p] == '{'
    &&& digit_run_len(t, p + 1) > 0
    &&& range_dash(t, p) < t.len()
    &&& t[range_dash(t, p)] == '-'
    &&& digit_run_len(t, range_dash(t, p) + 1) > 0
    &&& range_close(t, p) < t.len()
    &&& t[range_close(t, p)] == '}'
}

/// A run of digits and commas is written as numbers each followed by at most
/// one comma: it is empty, or starts with a digit and holds no two commas in a
/// row.
pub open spec fn list_syntax_ok(c: Seq<char>) -> bool {
    c.len() == 0 || (is_ascii_digit(c[0]) && forall|i: int|
        0 <= i < c.len() - 1 ==> !(#[trigger] c[i] == ',' && c[i + 1] == ','))
}

/// `{digits,digits,...}` opens at `p`.
pub open spec fn list_placeholder_at(t: Seq<char>, p: int) -> bool {
    &&& 0 <= p < t.len()
    &&& t[p] == '{'
    &&& list_close(t, p) < t.len()
    &&& t[list_close(t, p)] == '}'
    &&& list_syntax_ok(t.subrange(p + 1, list_close(t, p)))
}

/// A placeholder opens at `p`; the range form is tried first.
pub open spec fn placeholder_at(t: Seq<char>, p: int) -> bool {
    range_placeholder_at(t, p) || list_placeholder_at(t, p)
}

/// The closing brace of the placeholder that opens at `p`.
pub open spec fn placeholder_close(t: Seq<char>, p: int) -> int {
    if range_placeholder_at(t, p) {
        range_close(t, p)
    } else {
        list_close(t, p)
    }
}

/// The opening braces of the placeholders from position `p` on, scanning left
/// to right and resuming after each placeholder.
pub open spec fn placeholders_from(t: Seq<char>, p: int) -> Seq<int>
    decreases t.len() - p,
{
    if p < 0 || p >= t.len() {
        seq![]
    } else if placeholder_at(t, p) {
        seq![p] + placeholders_from(t, placeholder_close(t, p) + 1)
    } else {
        placeholders_from(t, p + 1)
    }
}

/// The opening braces of the placeholders of a template.
pub open spec fn placeholders(t: Seq<char>) -> Seq<int> {
    placeholders_from(t, 0)
}

/// The name of the variable that replaces the `k`-th placeholder: `s1`,
/// `s2`, ...
pub open spec fn var_name(k: nat) -> Seq<char> {
    seq!['s'] + decimal(k + 1)
}

/// The template from position `p` on, where the placeholders, counted from
/// `k`, have their inside replaced by their variable name.
pub open spec fn substituted_from(t: Seq<char>, p: int, k: nat) -> Seq<char>
    decreases t.len() - p,
{
    if p < 0 || p >= t.len() {
        seq![]
    } else if placeholder_at(t, p) {
        seq!['{'] + var_name(k) + seq!['}'] + substituted_from(
            t,
            placeholder_close(t, p) + 1,
            k + 1,
        )
    } else {
        seq![t[p]] + substituted_from(t, p + 1, k)
    }
}

/// The template with each placeholder's inside replaced by its variable name.
pub open spec fn substituted(t: Seq<char>) -> Seq<char> {
    substituted_from(t, 0, 0)
}

/// `c` cut at each comma, as `str::split(",")` cuts it: the empty string gives
/// one empty piece, and a trailing comma an empty last piece.
pub open spec fn split_commas(c: Seq<char>) -> Seq<Seq<char>>
    decreases c.len(),
{
    if c.len() == 0 {
        seq![seq![]]
    } else if c.last() == ',' {
        split_commas(c.drop_last()).push(seq![])
    } else {
        let s = split_commas(c.drop_last());
        s.update(s.len() - 1, s.last().push(c.last()))
    }
}

/// The lower bound of a range placeholder.
pub open spec fn range_low(t: Seq<char>, p: int) -> nat {
    digits_value(t.subrange(p + 1, range_dash(t, p)))
}

/// The (exclusive) upper bound of a range placeholder.
pub open spec fn range_high(t: Seq<char>, p: int) -> nat {
    digits_value(t.subrange(range_dash(t, p) + 1, range_close(t, p)))
}

/// The inside of a list placeholder.
pub open spec fn list_content(t: Seq<char>, p: int) -> Seq<char> {
    t.subrange(p + 1, list_close(t, p))
}

/// The numbers a placeholder that opens at `p` offers, in order: `lo..hi` for
/// a range, the listed numbers for a list.
pub open spec fn placeholder_values(t: Seq<char>, p: int) -> Seq<nat> {
    if range_placeholder_at(t, p) {
        Seq::new(
            if range_high(t, p) > range_low(t, p) {
                (range_high(t, p) - range_low(t, p)) as nat
            } else {
                0
            },
            |i: int| (range_low(t, p) + i) as nat,
        )
    } else {
        split_commas(list_content(t, p)).map_values(|s: Seq<char>| digits_value(s))
    }
}

/// A placeholder can be resolved: its numbers fit in a `u32` and it offers at
/// least one (a range `{a-b}` needs `a < b`; a list has no empty item).
pub open spec fn placeholder_ok(t: Seq<char>, p: int) -> bool {
    if range_placeholder_at(t, p) {
        &&& range_low(t, p) <= u32::MAX
        &&& range_high(t, p) <= u32::MAX
        &&& range_low(t, p) < range_high(t, p)
    } else {
        &&& list_content(t, p).len() > 0
        &&& list_content(t, p).last() != ','
        &&& forall|i: int|
            0 <= i < split_commas(list_content(t, p)).len() ==> digits_value(
                #[trigger] split_commas(list_content(t, p))[i],
            ) <= u32::MAX
    }
}

/// A template can be turned into a request URL: it has at most
/// `MAX_PLACEHOLDERS` placeholders and each of them can be resolved.
pub open spec fn url_template_ok(t: Seq<char>) -> bool {
    &&& placeholders(t).len() <= MAX_PLACEHOLDERS
    &&& forall|k: int|
        0 <= k < placeholders(t).len() ==> placeholder_ok(t, #[trigger] placeholders(t)[k])
}

/// `vals` picks, for each placeholder in order, one of the numbers it offers.
pub open spec fn values_allowed(t: Seq<char>, vals: Seq<u32>) -> bool {
    &&& vals.len() == placeholders(t).len()
    &&& forall|k: int|
        0 <= k < vals.len() ==> placeholder_values(t, placeholders(t)[k]).contains(
            #[trigger] vals[k] as nat,
        )
}

/// The variables a request URL is rendered with: `s1`, `s2`, ... bound to the
/// picked numbers, then `z` to the level, `x` and `y` to the tile column and
/// row, all in decimal.
pub open spec fn request_args(vals: Seq<u32>, x: u32, y: u32, level: u32) -> Seq<
    (Seq<char>, Seq<char>),
> {
    Seq::new(vals.len(), |k: int| (var_name(k as nat), decimal(vals[k] as nat))) + seq![
        (seq!['z'], decimal(level as nat)),
        (seq!['x'], decimal(x as nat)),
        (seq!['y'], decimal(y as nat)),
    ]
}

/// What `Template::new(template).render_nofail(args)` of the crate
/// `new_string_template` gives, the arguments taken as (name, value) pairs.
pub uninterp spec fn rendered_template(template: Seq<char>, args: Seq<(Seq<char>, Seq<char>)>) -> Seq<
    char,
>;

/// The views of a list of (name, value) strings.
pub open spec fn args_view(args: Seq<(String, String)>) -> Seq<(Seq<char>, Seq<char>)> {
    args.map_values(|a: (String, String)| (a.0@, a.1@))
}

/// `url` is a request URL of the tile (`x`, `y`, `level`) that the template can
/// give: the one rendered from some allowed pick of the placeholders' numbers.
pub open spec fn is_request_url(t: Seq<char>, x: u32, y: u32, level: u32, url: Seq<char>) -> bool {
    exists|vals: Seq<u32>|
        values_allowed(t, vals) && url == rendered_template(
            substituted(t),
            request_args(vals, x, y, level),
        )
}

/// Renders a template with `new_string_template`: each `{name}` whose name
/// is bound in `args` becomes the bound value, others stay as they are. The
/// contract names the result; it also states that a template without `{`
/// comes back unchanged (the crate finds no match in it and returns its
/// source).
#[verifier::external_body]
fn render_template(template: &String, args: &Vec<(String, String)>) -> (r: String)
    ensures
        r@ == rendered_template(template@, args_view(args@)),
        !template@.contains('{') ==> r@ == template@,
{
    let map: std::collections::HashMap<&str, &str> = args.iter().map(
        |a| (a.0.as_str(), a.1.as_str()),
    ).collect();
    new_string_template::template::Template::new(template.as_str()).render_nofail(&map)
}

#[verifier::external_type_specification]
#[verifier::external_body]
pub struct ExThreadRng(rand::rngs::ThreadRng);

/// The thread-local random generator of `rand` (`rand::thread_rng`). Nothing
/// is stated of it.
#[verifier::external_body]
fn thread_rng() -> rand::rngs::ThreadRng {
    rand::thread_rng()
}

/// Picks one number of a non-empty list at random with
/// `SliceRandom::choose`. The contract states only that the number is one of
/// the list; which one depends on the generator.
#[verifier::external_body]
fn choose_value(list: &Vec<u32>, rng: &mut rand::rngs::ThreadRng) -> (r: u32)
    requires
        list.len() > 0,
    ensures
        list@.contains(r),
{
    *list.choose(rng).unwrap()
}

} // verus!

verus! {

/// Every character of a run counted by `digit_run_len` is a digit, and of one
/// counted by `list_run_len` a digit or a comma; the runs stay inside `t`.
pub proof fn lemma_runs(t: Seq<char>, i: int)
    requires
        0 <= i,
    ensures
        forall|j: int| i <= j < i + digit_run_len(t, i) ==> is_ascii_digit(#[trigger] t[j]),
        forall|j: int| i <= j < i + list_run_len(t, i) ==> is_list_char(#[trigger] t[j]),
        digit_run_len(t, i) > 0 ==> i + digit_run_len(t, i) <= t.len(),
        list_run_len(t, i) > 0 ==> i + list_run_len(t, i) <= t.len(),
    decreases t.len() - i,
{
    if i < t.len() {
        lemma_runs(t, i + 1);
    }
}

/// Every position that `placeholders_from(t, p)` lists opens a placeholder at
/// or after `p`, and the positions increase.
pub proof fn lemma_placeholders_from(t: Seq<char>, p: int)
    ensures
        forall|k: int|
            0 <= k < placeholders_from(t, p).len() ==> {
                &&& placeholder_at(t, #[trigger] placeholders_from(t, p)[k])
                &&& p <= placeholders_from(t, p)[k] < t.len()
            },
    decreases t.len() - p,
{
    if p < 0 || p >= t.len() {
    } else if placeholder_at(t, p) {
        lemma_placeholders_from(t, placeholder_close(t, p) + 1);
        let rest = placeholders_from(t, placeholder_close(t, p) + 1);
        assert forall|k: int| 0 <= k < placeholders_from(t, p).len() implies {
            &&& placeholder_at(t, #[trigger] placeholders_from(t, p)[k])
            &&& p <= placeholders_from(t, p)[k] < t.len()
        } by {
            assert(placeholders_from(t, p) == seq![p] + rest);
            if k > 0 {
                assert(placeholders_from(t, p)[k] == rest[k - 1]);
            }
        }
    } else {
        lemma_placeholders_from(t, p + 1);
        assert(placeholders_from(t, p) == placeholders_from(t, p + 1));
    }
}

/// `str::split(",")` gives at least one piece.
pub proof fn lemma_split_commas_len(c: Seq<char>)
    ensures
        split_commas(c).len() >= 1,
    decreases c.len(),
{
    if c.len() > 0 {
        lemma_split_commas_len(c.drop_last());
    }
}

/// The pieces of a prefix of `c` are the first pieces of `c`, the last one
/// possibly cut short.
pub proof fn lemma_split_commas_prefix(c: Seq<char>, m: int)
    requires
        0 <= m <= c.len(),
    ensures
        split_commas(c.take(m)).len() <= split_commas(c).len(),
        forall|j: int|
            0 <= j < split_commas(c.take(m)).len() - 1 ==> #[trigger] split_commas(c.take(m))[j]
                == split_commas(c)[j],
        split_commas(c.take(m)).last().len() <= split_commas(c)[split_commas(c.take(m)).len()
            - 1].len(),
        split_commas(c.take(m)).last() == split_commas(c)[split_commas(c.take(m)).len()
            - 1].take(split_commas(c.take(m)).last().len() as int),
    decreases c.len(),
{
    lemma_split_commas_len(c);
    lemma_split_commas_len(c.take(m));
    if m == c.len() {
        assert(c.take(m) =~= c);
        let s = split_commas(c);
        assert(s.last().take(s.last().len() as int) =~= s.last());
    } else {
        let d = c.drop_last();
        assert(d.take(m) =~= c.take(m));
        lemma_split_commas_prefix(d, m);
        lemma_split_commas_len(d);
        let a = split_commas(c.take(m));
        let b = split_commas(d);
        let s = split_commas(c);
        if c.last() == ',' {
            assert(s == b.push(seq![]));
        } else {
            assert(s == b.update(b.len() - 1, b.last().push(c.last())));
            let idx = a.len() - 1;
            if idx == b.len() - 1 {
                assert(b.last().push(c.last()).take(a.last().len() as int) =~= b.last().take(
                    a.last().len() as int,
                ));
            }
        }
    }
}

/// `c` is a digit.
pub fn is_digit_char(c: char) -> (r: bool)
    ensures
        r == is_ascii_digit(c),
{
    '0' <= c && c <= '9'
}

fn in_run(c: char, list: bool) -> (r: bool)
    ensures
        r == if list {
            is_list_char(c)
        } else {
            is_ascii_digit(c)
        },
{
    if list {
        is_digit_char(c) || c == ','
    } else {
        is_digit_char(c)
    }
}

/// The length of the run of digits (or, with `list`, digits and commas) that
/// starts at `i`.
fn run_len(v: &Vec<char>, i: usize, list: bool) -> (n: usize)
    requires
        i <= v.len(),
    ensures
        n as nat == if list {
            list_run_len(v@, i as int)
        } else {
            digit_run_len(v@, i as int)
        },
        i + n <= v.len(),
{
    let mut j: usize = i;
    while j < v.len() && in_run(v[j], list)
        invariant
            i <= j <= v.len(),
            list ==> list_run_len(v@, i as int) == (j - i) + list_run_len(v@, j as int),
            !list ==> digit_run_len(v@, i as int) == (j - i) + digit_run_len(v@, j as int),
        decreases v.len() - j,
    {
        j += 1;
    }
    j - i
}

/// Whether `v[from..to]` is written as numbers each followed by at most one
/// comma.
fn list_syntax_check(v: &Vec<char>, from: usize, to: usize) -> (r: bool)
    requires
        from <= to <= v.len(),
    ensures
        r == list_syntax_ok(v@.subrange(from as int, to as int)),
{
    let ghost c = v@.subrange(from as int, to as int);
    if from == to {
        return true;
    }
    if !is_digit_char(v[from]) {
        return false;
    }
    let mut i: usize = from;
    while i + 1 < to
        invariant
            from <= i < to <= v.len(),
            c == v@.subrange(from as int, to as int),
            is_ascii_digit(c[0]),
            forall|j: int| 0 <= j < i - from ==> !(#[trigger] c[j] == ',' && c[j + 1] == ','),
        decreases to - i,
    {
        if v[i] == ',' && v[i + 1] == ',' {
            assert(c[i - from] == ',' && c[i - from + 1] == ',');
            return false;
        }
        i += 1;
    }
    true
}

/// Where the placeholder that opens at `p` closes, and whether it is a range;
/// `None` where no placeholder opens at `p`.
fn placeholder_at_exec(v: &Vec<char>, p: usize) -> (r: Option<(usize, bool)>)
    requires
        p < v.len(),
    ensures
        match r {
            Some((c, is_range)) => {
                &&& placeholder_at(v@, p as int)
                &&& c as int == placeholder_close(v@, p as int)
                &&& is_range == range_placeholder_at(v@, p as int)
            },
            None => !placeholder_at(v@, p as int),
        },
{
    if v[p] != '{' {
        return None;
    }
    let a = run_len(v, p + 1, false);
    if a > 0 {
        let q = p + 1 + a;
        if q < v.len() && v[q] == '-' {
            let b = run_len(v, q + 1, false);
            let r = q + 1 + b;
            if b > 0 && r < v.len() && v[r] == '}' {
                return Some((r, true));
            }
        }
    }
    let l = run_len(v, p + 1, true);
    let r = p + 1 + l;
    if r < v.len() && v[r] == '}' && list_syntax_check(v, p + 1, r) {
        Some((r, false))
    } else {
        None
    }
}

/// The opening braces of the placeholders of `v`, left to right.
pub fn placeholder_positions(v: &Vec<char>) -> (r: Vec<usize>)
    ensures
        r@.map_values(|u: usize| u as int) == placeholders(v@),
{
    let mut out: Vec<usize> = Vec::new();
    let mut p: usize = 0;
    while p < v.len()
        invariant
            out@.map_values(|u: usize| u as int) + placeholders_from(v@, p as int) == placeholders(
                v@,
            ),
        decreases v.len() - p,
    {
        match placeholder_at_exec(v, p) {
            Some((c, _)) => {
                let ghost before = out@.map_values(|u: usize| u as int);
                out.push(p);
                assert(out@.map_values(|u: usize| u as int) =~= before.push(p as int));
                assert(before.push(p as int) + placeholders_from(v@, c as int + 1) =~= before
                    + placeholders_from(v@, p as int));
                p = c + 1;
            },
            None => {
                p += 1;
            },
        }
    }
    assert(out@.map_values(|u: usize| u as int) + placeholders_from(v@, p as int) =~= out@.map_values(
        |u: usize| u as int,
    ));
    out
}

} // verus!

verus! {

/// The template with each placeholder's inside replaced by its variable name
/// (`{2-10}` becomes `{s1}`, the next placeholder `{s2}`, ...).
pub fn substitute_placeholders(template: &String) -> (r: String)
    ensures
        r@ == substituted(template@),
{
    let v = chars_of(template);
    let mut out: Vec<char> = Vec::new();
    let mut p: usize = 0;
    let mut k: usize = 0;
    while p < v.len()
        invariant
            v@ == template@,
            k <= p,
            out@ + substituted_from(v@, p as int, k as nat) == substituted(v@),
        decreases v.len() - p,
    {
        match placeholder_at_exec(&v, p) {
            Some((c, _)) => {
                let ghost before = out@;
                out.push('{');
                out.push('s');
                push_decimal(&mut out, (k as u64) + 1);
                out.push('}');
                assert(out@ =~= before + (seq!['{'] + var_name(k as nat) + seq!['}']));
                assert(before + substituted_from(v@, p as int, k as nat) =~= out@
                    + substituted_from(v@, c as int + 1, k as nat + 1));
                p = c + 1;
                k = k + 1;
            },
            None => {
                let ghost before = out@;
                out.push(v[p]);
                assert(before + substituted_from(v@, p as int, k as nat) =~= out@
                    + substituted_from(v@, p as int + 1, k as nat));
                p += 1;
            },
        }
    }
    assert(out@ + substituted_from(v@, p as int, k as nat) =~= out@);
    string_of(&out)
}

/// The numbers of the list `v[from..to]`, cut at its commas; `None` where one
/// of them does not fit in a `u32`.
fn list_values(v: &Vec<char>, from: usize, to: usize) -> (r: Option<Vec<u32>>)
    requires
        from <= to <= v.len(),
        forall|i: int| from <= i < to ==> is_list_char(#[trigger] v@[i]),
    ensures
        ({
            let pieces = split_commas(v@.subrange(from as int, to as int));
            match r {
                Some(vals) => {
                    &&& vals@.len() == pieces.len()
                    &&& forall|j: int|
                        0 <= j < pieces.len() ==> vals@[j] as nat == digits_value(
                            #[trigger] pieces[j],
                        )
                    &&& forall|j: int|
                        0 <= j < pieces.len() ==> digits_value(#[trigger] pieces[j]) <= u32::MAX
                },
                None => exists|j: int|
                    0 <= j < pieces.len() && digits_value(#[trigger] pieces[j]) > u32::MAX,
            }
        }),
{
    let ghost c = v@.subrange(from as int, to as int);
    let mut out: Vec<u32> = Vec::new();
    let mut start: usize = from;
    let mut i: usize = from;
    let ghost mut done: Seq<Seq<char>> = seq![];
    proof {
        assert(c.take(0) =~= seq![]);
        assert(v@.subrange(start as int, i as int) =~= seq![]);
        assert(split_commas(c.take(0)) =~= done.push(v@.subrange(start as int, i as int)));
    }
    while i < to
        invariant
            from <= start <= i <= to <= v.len(),
            c == v@.subrange(from as int, to as int),
            forall|j: int| from <= j < to ==> is_list_char(#[trigger] v@[j]),
            forall|j: int| start <= j < i ==> is_ascii_digit(#[trigger] v@[j]),
            split_commas(c.take(i - from)) == done.push(v@.subrange(start as int, i as int)),
            out@.len() == done.len(),
            forall|j: int| 0 <= j < done.len() ==> out@[j] as nat == digits_value(#[trigger] done[j]),
            forall|j: int| 0 <= j < done.len() ==> digits_value(#[trigger] done[j]) <= u32::MAX,
        decreases to - i,
    {
        proof {
            assert(c.take(i - from + 1).drop_last() =~= c.take(i - from));
            assert(c.take(i - from + 1).last() == v@[i as int]);
        }
        if v[i] == ',' {
            let piece = parse_digits(v, start, i);
            proof {
                let m = i - from + 1;
                lemma_split_commas_prefix(c, m);
                let a = split_commas(c.take(m));
                assert(a == done.push(v@.subrange(start as int, i as int)).push(seq![]));
                assert(a[done.len() as int] == v@.subrange(start as int, i as int));
            }
            match piece {
                Some(n) => {
                    out.push(n);
                    proof {
                        done = done.push(v@.subrange(start as int, i as int));
                        assert(v@.subrange(i as int + 1, i as int + 1) =~= seq![]);
                    }
                    start = i + 1;
                },
                None => {
                    proof {
                        let j = done.len() as int;
                        assert(digits_value(split_commas(c)[j]) > u32::MAX);
                    }
                    return None;
                },
            }
        } else {
            proof {
                assert(v@.subrange(start as int, i as int + 1) =~= v@.subrange(
                    start as int,
                    i as int,
                ).push(v@[i as int]));
                let s = done.push(v@.subrange(start as int, i as int));
                assert(s.update(s.len() - 1, s.last().push(v@[i as int])) =~= done.push(
                    v@.subrange(start as int, i as int + 1),
                ));
            }
        }
        i += 1;
    }
    proof {
        assert(c.take(to - from) =~= c);
    }
    let last = parse_digits(v, start, to);
    match last {
        Some(n) => {
            out.push(n);
            proof {
                done = done.push(v@.subrange(start as int, to as int));
            }
            Some(out)
        },
        None => {
            proof {
                let j = done.len() as int;
                assert(split_commas(c)[j] == v@.subrange(start as int, to as int));
            }
            None
        },
    }
}

/// Whether the placeholder that opens at `p` can be resolved.
fn placeholder_ok_exec(v: &Vec<char>, p: usize, close: usize, is_range: bool) -> (r: bool)
    requires
        p < v.len(),
        placeholder_at(v@, p as int),
        close as int == placeholder_close(v@, p as int),
        is_range == range_placeholder_at(v@, p as int),
    ensures
        r == placeholder_ok(v@, p as int),
{
    proof {
        lemma_runs(v@, p as int + 1);
    }
    if is_range {
        let dash = p + 1 + run_len(v, p + 1, false);
        proof {
            lemma_runs(v@, dash as int + 1);
        }
        let lo = parse_digits(v, p + 1, dash);
        let hi = parse_digits(v, dash + 1, close);
        match (lo, hi) {
            (Some(a), Some(b)) => a < b,
            _ => false,
        }
    } else {
        if close == p + 1 || v[close - 1] == ',' {
            return false;
        }
        proof {
            assert(list_content(v@, p as int).last() == v@[close - 1]);
        }
        let vals = list_values(v, p + 1, close);
        proof {
            if vals is None {
                let pieces = split_commas(list_content(v@, p as int));
                let j = choose|j: int|
                    0 <= j < pieces.len() && digits_value(#[trigger] pieces[j]) > u32::MAX;
                assert(!(digits_value(pieces[j]) <= u32::MAX));
            }
        }
        vals.is_some()
    }
}

/// The numbers a resolvable placeholder offers, in order.
fn placeholder_numbers(v: &Vec<char>, p: usize, close: usize, is_range: bool) -> (r: Vec<u32>)
    requires
        p < v.len(),
        placeholder_at(v@, p as int),
        placeholder_ok(v@, p as int),
        close as int == placeholder_close(v@, p as int),
        is_range == range_placeholder_at(v@, p as int),
    ensures
        r@.len() == placeholder_values(v@, p as int).len(),
        r@.len() > 0,
        forall|i: int| 0 <= i < r@.len() ==> r@[i] as nat == #[trigger] placeholder_values(v@, p as int)[i],
{
    proof {
        lemma_runs(v@, p as int + 1);
    }
    if is_range {
        let dash = p + 1 + run_len(v, p + 1, false);
        proof {
            lemma_runs(v@, dash as int + 1);
        }
        let lo = parse_digits(v, p + 1, dash).unwrap();
        let hi = parse_digits(v, dash + 1, close).unwrap();
        let mut out: Vec<u32> = Vec::new();
        let mut n: u32 = lo;
        while n < hi
            invariant
                lo <= n <= hi,
                lo as nat == range_low(v@, p as int),
                hi as nat == range_high(v@, p as int),
                out@.len() == n - lo,
                forall|i: int| 0 <= i < out@.len() ==> out@[i] == lo + i,
            decreases hi - n,
        {
            out.push(n);
            n += 1;
        }
        out
    } else {
        let vals = list_values(v, p + 1, close);
        proof {
            lemma_split_commas_len(list_content(v@, p as int));
        }
        vals.unwrap()
    }
}

/// Whether the template can be turned into a request URL: at most
/// `MAX_PLACEHOLDERS` placeholders, each of them resolvable.
pub fn is_valid_url_template(template: &String) -> (r: bool)
    ensures
        r == url_template_ok(template@),
{
    let v = chars_of(template);
    let positions = placeholder_positions(&v);
    proof {
        lemma_placeholders_from(v@, 0);
        assert(positions@.len() == placeholders(v@).len());
    }
    if positions.len() > MAX_PLACEHOLDERS {
        return false;
    }
    let mut k: usize = 0;
    while k < positions.len()
        invariant
            v@ == template@,
            positions@.map_values(|u: usize| u as int) == placeholders(v@),
            forall|j: int|
                0 <= j < placeholders(v@).len() ==> {
                    &&& placeholder_at(v@, #[trigger] placeholders(v@)[j])
                    &&& 0 <= placeholders(v@)[j] < v@.len()
                },
            k <= positions.len(),
            forall|j: int| 0 <= j < k ==> placeholder_ok(v@, #[trigger] placeholders(v@)[j]),
        decreases positions.len() - k,
    {
        let p = positions[k];
        assert(placeholders(v@)[k as int] == p as int);
        let (close, is_range) = placeholder_at_exec(&v, p).unwrap();
        if !placeholder_ok_exec(&v, p, close, is_range) {
            return false;
        }
        k += 1;
    }
    true
}

/// The variables a request URL is rendered with: `s1`, `s2`, ... bound to
/// `values`, then `z` to `level`, `x` and `y` to the tile column and row.
pub fn request_arguments(values: &Vec<u32>, x: u32, y: u32, level: u32) -> (r: Vec<(String, String)>)
    ensures
        args_view(r@) == request_args(values@, x, y, level),
{
    let mut out: Vec<(String, String)> = Vec::new();
    let mut k: usize = 0;
    while k < values.len()
        invariant
            k <= values.len(),
            args_view(out@) == Seq::new(
                k as nat,
                |j: int| (var_name(j as nat), decimal(values@[j] as nat)),
            ),
        decreases values.len() - k,
    {
        let mut name: Vec<char> = Vec::new();
        name.push('s');
        push_decimal(&mut name, (k as u64) + 1);
        assert(name@ =~= var_name(k as nat));
        let name_string = string_of(&name);
        let value_string = decimal_string(values[k] as u64);
        let ghost before = out@;
        out.push((name_string, value_string));
        assert(args_view(out@) =~= args_view(before).push((var_name(k as nat), decimal(values@[k as int] as nat))));
        assert(args_view(out@) =~= Seq::new(
            (k + 1) as nat,
            |j: int| (var_name(j as nat), decimal(values@[j] as nat)),
        ));
        k += 1;
    }
    let ghost named = args_view(out@);
    let mut z_name: Vec<char> = Vec::new();
    z_name.push('z');
    let mut x_name: Vec<char> = Vec::new();
    x_name.push('x');
    let mut y_name: Vec<char> = Vec::new();
    y_name.push('y');
    let z_pair = (string_of(&z_name), decimal_string(level as u64));
    let x_pair = (string_of(&x_name), decimal_string(x as u64));
    let y_pair = (string_of(&y_name), decimal_string(y as u64));
    assert(z_pair.0@ =~= seq!['z']);
    assert(x_pair.0@ =~= seq!['x']);
    assert(y_pair.0@ =~= seq!['y']);
    out.push(z_pair);
    out.push(x_pair);
    out.push(y_pair);
    assert(args_view(out@) =~= named + seq![
        (seq!['z'], decimal(level as nat)),
        (seq!['x'], decimal(x as nat)),
        (seq!['y'], decimal(y as nat)),
    ]);
    assert(args_view(out@) =~= request_args(values@, x, y, level));
    out
}

/// The request URL of the tile (`x`, `y`, `level`) for the picked numbers
/// `values` of the template's placeholders.
pub fn fill_url_template(url_template: &String, values: &Vec<u32>, x: u32, y: u32, level: u32) -> (r:
    String)
    ensures
        r@ == rendered_template(substituted(url_template@), request_args(values@, x, y, level)),
{
    let template = substitute_placeholders(url_template);
    let args = request_arguments(values, x, y, level);
    render_template(&template, &args)
}

/// A request URL of the tile (`x`, `y`, `level`): each placeholder of the
/// template gets one of its numbers at random, and the template is rendered
/// with those numbers and the tile's coordinates.
pub fn make_request_url(url_template: &String, x: u32, y: u32, level: u32) -> (r: Option<String>)
    requires
        url_template_ok(url_template@),
    ensures
        r is Some,
        is_request_url(url_template@, x, y, level, r->0@),
{
    let v = chars_of(url_template);
    let positions = placeholder_positions(&v);
    proof {
        lemma_placeholders_from(v@, 0);
        assert(positions@.len() == placeholders(v@).len());
    }
    let mut rng = thread_rng();
    let mut values: Vec<u32> = Vec::new();
    let mut k: usize = 0;
    while k < positions.len()
        invariant
            v@ == url_template@,
            url_template_ok(v@),
            positions@.map_values(|u: usize| u as int) == placeholders(v@),
            forall|j: int|
                0 <= j < placeholders(v@).len() ==> {
                    &&& placeholder_at(v@, #[trigger] placeholders(v@)[j])
                    &&& 0 <= placeholders(v@)[j] < v@.len()
                },
            k <= positions.len(),
            values@.len() == k,
            forall|j: int|
                0 <= j < k ==> placeholder_values(v@, placeholders(v@)[j]).contains(
                    #[trigger] values@[j] as nat,
                ),
        decreases positions.len() - k,
    {
        let p = positions[k];
        assert(placeholders(v@)[k as int] == p as int);
        let (close, is_range) = placeholder_at_exec(&v, p).unwrap();
        let list = placeholder_numbers(&v, p, close, is_range);
        let value = choose_value(&list, &mut rng);
        proof {
            let i = choose|i: int| 0 <= i < list@.len() && list@[i] == value;
            assert(placeholder_values(v@, p as int)[i] == value as nat);
        }
        values.push(value);
        k += 1;
    }
    let url = fill_url_template(url_template, &values, x, y, level);
    assert(values_allowed(url_template@, values@));
    Some(url)
}

} // verus!

verus! {

/// `u` from `a` and `v` from `b` read the same up to offset `j` (inclusive):
/// the same characters, and the same ends.
pub open spec fn agree_upto(u: Seq<char>, a: int, v: Seq<char>, b: int, j: int) -> bool {
    forall|m: int| 0 <= m <= j ==> #[trigger] same_at(u, a, v, b, m)
}

/// `u` at `a + m` and `v` at `b + m` hold the same character, or are both
/// past their ends.
pub open spec fn same_at(u: Seq<char>, a: int, v: Seq<char>, b: int, m: int) -> bool {
    &&& (a + m < u.len()) == (b + m < v.len())
    &&& a + m < u.len() ==> u[a + m] == v[b + m]
}

/// The first position at or after `q` that holds `{`, or the length of `t`.
pub open spec fn next_brace(t: Seq<char>, q: int) -> int
    decreases t.len() - q,
{
    if q >= t.len() {
        t.len() as int
    } else if t[q] == '{' {
        q
    } else {
        next_brace(t, q + 1)
    }
}

proof fn lemma_next_brace(t: Seq<char>, q: int)
    requires
        0 <= q <= t.len(),
    ensures
        q <= next_brace(t, q) <= t.len(),
        next_brace(t, q) < t.len() ==> t[next_brace(t, q)] == '{',
        forall|m: int| q <= m < next_brace(t, q) ==> t[m] != '{',
    decreases t.len() - q,
{
    if q < t.len() && t[q] != '{' {
        lemma_next_brace(t, q + 1);
    }
}

/// Where two texts read the same up to a `{` or their ends, the runs of
/// digits, and of digits and commas, that start before that point are the
/// same and end by it.
proof fn lemma_runs_agree(u: Seq<char>, a: int, v: Seq<char>, b: int, j: int, i: int)
    requires
        0 <= a,
        0 <= b,
        1 <= i <= j,
        agree_upto(u, a, v, b, j),
        a + j >= u.len() || u[a + j] == '{',
    ensures
        digit_run_len(u, a + i) == digit_run_len(v, b + i),
        i + digit_run_len(u, a + i) <= j,
        list_run_len(u, a + i) == list_run_len(v, b + i),
        i + list_run_len(u, a + i) <= j,
    decreases j - i,
{
    assert(same_at(u, a, v, b, i));
    if i < j {
        lemma_runs_agree(u, a, v, b, j, i + 1);
    }
}

/// Whether a placeholder opens at a position depends only on the text up to
/// the next `{` (or the end).
proof fn lemma_placeholder_window(u: Seq<char>, a: int, v: Seq<char>, b: int, j: int)
    requires
        0 <= a,
        0 <= b,
        1 <= j,
        agree_upto(u, a, v, b, j),
        a + j >= u.len() || u[a + j] == '{',
    ensures
        placeholder_at(u, a) == placeholder_at(v, b),
{
    assert(same_at(u, a, v, b, 0));
    lemma_runs_agree(u, a, v, b, j, 1);
    let r1: int = digit_run_len(u, a + 1) as int;
    let d: int = 1 + r1;
    assert(same_at(u, a, v, b, d));
    if d < j {
        lemma_runs_agree(u, a, v, b, j, d + 1);
        let c: int = d + 1 + digit_run_len(u, a + d + 1);
        assert(same_at(u, a, v, b, c));
        assert(range_placeholder_at(u, a) == range_placeholder_at(v, b));
    } else {
        assert(!range_placeholder_at(u, a));
        assert(!range_placeholder_at(v, b));
    }
    let lr: int = list_run_len(u, a + 1) as int;
    let c: int = 1 + lr;
    assert(same_at(u, a, v, b, c));
    if a + c < u.len() {
        lemma_runs(u, a + 1);
        assert(u.subrange(a + 1, a + c) =~= v.subrange(b + 1, b + c)) by {
            assert forall|m: int| 0 <= m < lr implies #[trigger] u.subrange(a + 1, a + c)[m] == v.subrange(
                b + 1,
                b + c,
            )[m] by {
                assert(same_at(u, a, v, b, m + 1));
            }
        }
    }
    assert(list_placeholder_at(u, a) == list_placeholder_at(v, b));
}

/// A placeholder opens at position `i` of `w` exactly when one opens at the
/// same place once text is put in front.
proof fn lemma_placeholder_shift(pre: Seq<char>, w: Seq<char>, i: int)
    requires
        0 <= i < w.len(),
    ensures
        placeholder_at(pre + w, pre.len() + i) == placeholder_at(w, i),
{
    let u = pre + w;
    lemma_next_brace(w, i + 1);
    let j = next_brace(w, i + 1) - i;
    assert forall|m: int| 0 <= m <= j implies #[trigger] same_at(u, pre.len() + i, w, i, m) by {}
    lemma_placeholder_window(u, pre.len() + i, w, i, j);
}

/// Where the copy of a template from `q` on stops: just after its next `{`,
/// or at its end.
pub open spec fn copy_end(t: Seq<char>, q: int) -> int {
    if next_brace(t, q) < t.len() {
        next_brace(t, q) + 1
    } else {
        t.len() as int
    }
}

/// The substituted text from position `q` copies the template up to its
/// next `{` (that `{` included), and where no `{` is left it is the rest of
/// the template.
proof fn lemma_substituted_copies(t: Seq<char>, q: int, k: nat)
    requires
        0 <= q <= t.len(),
    ensures
        copy_end(t, q) - q <= substituted_from(t, q, k).len(),
        substituted_from(t, q, k).subrange(0, copy_end(t, q) - q) == t.subrange(q, copy_end(t, q)),
        next_brace(t, q) == t.len() ==> substituted_from(t, q, k).len() == t.len() - q,
    decreases t.len() - q,
{
    lemma_next_brace(t, q);
    let s = substituted_from(t, q, k);
    if q < t.len() {
        if placeholder_at(t, q) {
            assert(next_brace(t, q) == q);
            assert(s == seq!['{'] + var_name(k) + seq!['}'] + substituted_from(
                t,
                placeholder_close(t, q) + 1,
                k + 1,
            ));
            assert(s.subrange(0, 1) =~= t.subrange(q, q + 1));
        } else {
            lemma_substituted_copies(t, q + 1, k);
            let s1 = substituted_from(t, q + 1, k);
            assert(s == seq![t[q]] + s1);
            if t[q] == '{' {
                assert(s.subrange(0, 1) =~= t.subrange(q, q + 1));
            } else {
                assert(next_brace(t, q) == next_brace(t, q + 1));
                assert(copy_end(t, q) == copy_end(t, q + 1));
                assert(s.subrange(0, copy_end(t, q) - q) =~= seq![t[q]] + s1.subrange(
                    0,
                    copy_end(t, q + 1) - (q + 1),
                ));
                assert(t.subrange(q, copy_end(t, q)) =~= seq![t[q]] + t.subrange(
                    q + 1,
                    copy_end(t, q + 1),
                ));
            }
        }
    } else {
        assert(s.subrange(0, 0) =~= t.subrange(q, q));
    }
}

/// No placeholder opens anywhere in a substituted text.
proof fn lemma_substituted_has_none(t: Seq<char>, p: int, k: nat)
    requires
        0 <= p <= t.len(),
    ensures
        forall|i: int|
            0 <= i < substituted_from(t, p, k).len() ==> !#[trigger] placeholder_at(
                substituted_from(t, p, k),
                i,
            ),
    decreases t.len() - p,
{
    if p < t.len() {
        let s = substituted_from(t, p, k);
        if placeholder_at(t, p) {
            let c = placeholder_close(t, p);
            lemma_runs(t, p + 1);
            lemma_substituted_has_none(t, c + 1, k + 1);
            let rest = substituted_from(t, c + 1, k + 1);
            let head = seq!['{'] + var_name(k) + seq!['}'];
            assert(s == head + rest);
            assert forall|i: int| 0 <= i < s.len() implies !#[trigger] placeholder_at(s, i) by {
                if i >= head.len() {
                    lemma_placeholder_shift(head, rest, i - head.len());
                } else if i == 0 {
                    assert(s[1] == 's');
                    assert(digit_run_len(s, 1) == 0);
                    assert(list_run_len(s, 1) == 0);
                } else {
                    assert(s[i] == head[i]);
                    lemma_decimal_digits((k + 1) as nat);
                    if i < head.len() - 1 && i > 1 {
                        assert(head[i] == decimal((k + 1) as nat)[i - 2]);
                    }
                }
            }
        } else {
            lemma_substituted_has_none(t, p + 1, k);
            let rest = substituted_from(t, p + 1, k);
            assert(s == seq![t[p]] + rest);
            assert forall|i: int| 0 <= i < s.len() implies !#[trigger] placeholder_at(s, i) by {
                if i >= 1 {
                    lemma_placeholder_shift(seq![t[p]], rest, i - 1);
                } else if t[p] == '{' {
                    lemma_next_brace(t, p + 1);
                    lemma_substituted_copies(t, p + 1, k);
                    let n = next_brace(t, p + 1);
                    let j = n - p;
                    assert forall|m: int| 0 <= m <= j implies #[trigger] same_at(s, 0, t, p, m) by {
                        if m >= 1 {
                            if p + m < t.len() {
                                assert(rest.subrange(0, copy_end(t, p + 1) - (p + 1))[m - 1]
                                    == t.subrange(p + 1, copy_end(t, p + 1))[m - 1]);
                            }
                        }
                    }
                    assert(same_at(s, 0, t, p, j));
                    lemma_placeholder_window(s, 0, t, p, j);
                }
            }
        }
    }
}

/// The digits of a decimal form are ASCII digits.
pub proof fn lemma_decimal_digits(n: nat)
    ensures
        decimal(n).len() >= 1,
        forall|i: int| 0 <= i < decimal(n).len() ==> is_ascii_digit(#[trigger] decimal(n)[i]),
    decreases n,
{
    if n >= 10 {
        lemma_decimal_digits(n / 10);
        assert(decimal(n) == decimal(n / 10).push(digit_char(n % 10)));
    }
}

/// Once each placeholder is replaced by its variable, the template holds no
/// placeholder: scanning it again finds nothing to replace.
pub proof fn lemma_substituted_has_no_placeholders(t: Seq<char>)
    ensures
        placeholders(substituted(t)).len() == 0,
{
    let s = substituted(t);
    lemma_substituted_has_none(t, 0, 0);
    lemma_placeholders_from(s, 0);
    if placeholders(s).len() > 0 {
        assert(placeholder_at(s, placeholders(s)[0]));
    }
}

} // verus!

verus! {

/// A range placeholder `{a-b}` can be resolved exactly when `a < b` and `b`
/// fits in a `u32`, whatever `a` is (zero included), and it offers exactly
/// the numbers `a` to `b - 1`.
pub proof fn lemma_range_placeholder_ok(t: Seq<char>, p: int)
    requires
        range_placeholder_at(t, p),
    ensures
        placeholder_ok(t, p) <==> range_low(t, p) < range_high(t, p) <= u32::MAX,
        placeholder_ok(t, p) <==> placeholder_values(t, p).len() > 0 && range_high(t, p)
            <= u32::MAX,
        forall|v: nat|
            placeholder_values(t, p).contains(v) <==> range_low(t, p) <= v < range_high(t, p),
{
    let vals = placeholder_values(t, p);
    let lo = range_low(t, p);
    let hi = range_high(t, p);
    assert forall|v: nat| vals.contains(v) <==> lo <= v < hi by {
        if lo <= v < hi {
            assert(vals[v - lo] == v);
        }
    }
}

/// The pieces of a list that starts with something other than a comma,
/// holds no two commas in a row and does not end with a comma are all
/// non-empty.
proof fn lemma_list_pieces_nonempty(c: Seq<char>)
    requires
        c.len() > 0,
        c[0] != ',',
        c.last() != ',',
        forall|i: int| 0 <= i < c.len() - 1 ==> !(#[trigger] c[i] == ',' && c[i + 1] == ','),
    ensures
        forall|k: int| 0 <= k < split_commas(c).len() ==> (#[trigger] split_commas(c)[k]).len() > 0,
    decreases c.len(),
{
    let d = c.drop_last();
    let x = c.last();
    lemma_split_commas_len(d);
    let sd = split_commas(d);
    let sc = split_commas(c);
    assert(sc == sd.update(sd.len() - 1, sd.last().push(x)));
    if d.len() == 0 {
        assert(sd == seq![Seq::<char>::empty()]);
    } else if d.last() != ',' {
        assert forall|i: int| 0 <= i < d.len() - 1 implies !(#[trigger] d[i] == ',' && d[i + 1]
            == ',') by {
            assert(d[i] == c[i] && d[i + 1] == c[i + 1]);
        }
        lemma_list_pieces_nonempty(d);
    } else {
        let e = d.drop_last();
        assert(c[c.len() - 2] == ',');
        if e.len() == 0 {
            assert(c[0] == ',');
        }
        assert(e.last() == c[c.len() - 3]);
        assert(e.last() != ',') by {
            assert(!(c[c.len() - 3] == ',' && c[c.len() - 2] == ','));
        }
        assert forall|i: int| 0 <= i < e.len() - 1 implies !(#[trigger] e[i] == ',' && e[i + 1]
            == ',') by {
            assert(e[i] == c[i] && e[i + 1] == c[i + 1]);
        }
        assert(e[0] == c[0]);
        lemma_list_pieces_nonempty(e);
        lemma_split_commas_len(e);
        assert(sd == split_commas(e).push(Seq::<char>::empty()));
    }
}

/// A list placeholder `{n,m,...}` can be resolved exactly when each of its
/// comma separated items is a non-empty number that fits in a `u32`, as
/// `str::parse::<u32>` needs; the numbers it offers are those items, in
/// order.
pub proof fn lemma_list_placeholder_ok(t: Seq<char>, p: int)
    requires
        placeholder_at(t, p),
        !range_placeholder_at(t, p),
    ensures
        placeholder_ok(t, p) <==> forall|k: int|
            0 <= k < split_commas(list_content(t, p)).len() ==> {
                &&& (#[trigger] split_commas(list_content(t, p))[k]).len() > 0
                &&& digits_value(split_commas(list_content(t, p))[k]) <= u32::MAX
            },
        placeholder_values(t, p).len() == split_commas(list_content(t, p)).len(),
        forall|k: int|
            0 <= k < placeholder_values(t, p).len() ==> #[trigger] placeholder_values(t, p)[k]
                == digits_value(split_commas(list_content(t, p))[k]),
{
    let c = list_content(t, p);
    let pieces = split_commas(c);
    lemma_split_commas_len(c);
    if c.len() == 0 {
        assert(pieces == seq![Seq::<char>::empty()]);
        assert(pieces[0].len() == 0);
    } else if c.last() == ',' {
        assert(pieces == split_commas(c.drop_last()).push(Seq::<char>::empty()));
        lemma_split_commas_len(c.drop_last());
        assert(pieces[pieces.len() - 1].len() == 0);
    } else {
        assert(list_syntax_ok(c));
        assert(is_ascii_digit(c[0]));
        lemma_list_pieces_nonempty(c);
    }
}

} // verus!
