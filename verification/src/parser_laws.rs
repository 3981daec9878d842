//! Laws of the spoiler-log grammar: what a well-formed line reads as, and
//! which parts of a log do not change what is read.
use vstd::prelude::*;
use crate::parser::{
    archipelago_name, player_keyword, spec_slot_at, is_identifier, lemma_check_bounds, lemma_location_end, lemma_pick_slot,
    lemma_sphere_bounds, playthrough_keyword, server_name, spec_check_at, spec_entries_from,
    spec_existing_slot_at, spec_find_from, spec_location_end, spec_number_end, spec_object_at,
    spec_pick_slot, spec_playthrough, spec_sent_check_at, spec_slot_ref_at, spec_sphere_at,
    spec_sphere_body_at, spec_spheres_from, spec_starting_check_at, spec_whole_sphere, ObjectView,
    seed_keyword, spec_seed,
};
use crate::text::{
    digit_pred, has_prefix_at, ident_pred, is_digit, is_ident_char, is_ident_start, is_ws, lemma_run_end, lemma_run_end_at,
    lemma_run_end_skip, lemma_trim_ws_suffix, lemma_trimmed_ends, newline_pred, run_end, skip_ws,
    trim, ws_pred,
};
use crate::types::EntryView;

verus! {

/// Every slot name is an ASCII identifier.
pub open spec fn all_identifiers(names: Seq<Seq<char>>) -> bool {
    forall|k: int| 0 <= k < names.len() ==> is_identifier(#[trigger] names[k])
}

/// No slot name is a proper prefix of another.
pub open spec fn prefix_free(names: Seq<Seq<char>>) -> bool {
    forall|i: int, j: int|
        0 <= i < names.len() && 0 <= j < names.len() ==> !(#[trigger] names[i].len()
            < #[trigger] names[j].len() && names[j].take(names[i].len() as int) == names[i])
}

/// `(n)` for a slot name `n`.
pub open spec fn bracketed(n: Seq<char>) -> Seq<char> {
    seq!['('] + n + seq![')']
}

/// `o` holds a slot name in brackets somewhere.
pub open spec fn mentions_slot(o: Seq<char>, names: Seq<Seq<char>>) -> bool {
    exists|j: int, k: int| 0 <= k < names.len() && #[trigger] has_prefix_at(o, j, bracketed(names[k]))
}

/// The text of an object as it can be written in a playthrough line: without
/// surrounding whitespace, braces or a bracketed slot name.
pub open spec fn plain_object(o: Seq<char>, names: Seq<Seq<char>>) -> bool {
    &&& trim(o) == o
    &&& !o.contains('{')
    &&& !o.contains('}')
    &&& !mentions_slot(o, names)
}

/// The conditions under which slot names are read back unambiguously.
pub open spec fn good_names(names: Seq<Seq<char>>) -> bool {
    all_identifiers(names) && prefix_free(names)
}

/// `o (p)`
pub open spec fn object_text(o: Seq<char>, p: Seq<char>) -> Seq<char> {
    o + seq![' '] + bracketed(p)
}

proof fn lemma_pick_slot_finds(names: Seq<Seq<char>>, s: Seq<char>, i: int, k: int, kp: int)
    requires
        0 <= k <= kp < names.len(),
        has_prefix_at(s, i, names[kp]),
    ensures
        spec_pick_slot(names, s, i, k) is Some,
    decreases kp - k,
{
    if !has_prefix_at(s, i, names[k]) {
        lemma_pick_slot_finds(names, s, i, k + 1, kp);
    }
}

/// Where a slot name `p` stands, followed by a character that cannot go on
/// a name, the slot read there is `p`.
proof fn lemma_existing_slot_is(names: Seq<Seq<char>>, s: Seq<char>, i: int, p: Seq<char>)
    requires
        good_names(names),
        names.contains(p),
        has_prefix_at(s, i, p),
        i + p.len() < s.len(),
        !is_ident_char(s[i + p.len()]),
    ensures
        spec_existing_slot_at(names, s, i) matches Some((k, e)) && names[k] == p && e == i
            + p.len(),
{
    let kp = choose|kp: int| 0 <= kp < names.len() && names[kp] == p;
    lemma_pick_slot_finds(names, s, i, 0, kp);
    lemma_pick_slot(names, s, i, 0);
    let k = spec_pick_slot(names, s, i, 0).unwrap();
    let n = names[k];
    assert(is_identifier(n));
    if n.len() > p.len() {
        assert(n[p.len() as int] == s.subrange(i, i + n.len())[p.len() as int]);
        assert(false);
    }
    assert forall|x: int| 0 <= x < n.len() implies n[x] == p[x] by {
        assert(n[x] == s.subrange(i, i + n.len())[x]);
        assert(p[x] == s.subrange(i, i + p.len())[x]);
    }
    if n.len() < p.len() {
        assert(p.take(n.len() as int) =~= n);
        assert(false);
    }
    assert(n =~= p);
}

/// A whitespace or a `(` cannot stand in a slot name.
proof fn lemma_not_name_char(c: char)
    requires
        is_ws(c) || c == '(',
    ensures
        !is_ident_char(c),
{
}

/// No bracketed slot name starts inside the text of a plain object that is
/// followed by whitespace and a bracket.
proof fn lemma_no_ref_in_object(
    names: Seq<Seq<char>>,
    s: Seq<char>,
    x: int,
    o: Seq<char>,
    w: Seq<char>,
    j: int,
)
    requires
        good_names(names),
        plain_object(o, names),
        forall|i: int| 0 <= i < w.len() ==> is_ws(#[trigger] w[i]),
        0 <= x <= j < x + o.len(),
        x + o.len() + w.len() < s.len(),
        s.subrange(x, x + o.len()) == o,
        s.subrange(x + o.len(), x + o.len() + w.len()) == w,
        s[x + o.len() + w.len()] == '(',
    ensures
        spec_slot_ref_at(names, s, j) is None,
{
    let q = x + o.len();
    if let Some((k, n)) = spec_slot_ref_at(names, s, j) {
        lemma_pick_slot(names, s, j + 1, 0);
        let name = names[k];
        let e = j + 1 + name.len();
        assert(s[j] == '(' && s[e] == ')');
        assert(has_prefix_at(s, j + 1, name));
        if e < q {
            let lit = bracketed(name);
            assert forall|y: int| 0 <= y < lit.len() implies o.subrange(
                j - x,
                j - x + lit.len(),
            )[y] == lit[y] by {
                assert(o[j - x + y] == s.subrange(x, x + o.len())[j - x + y]);
                if 0 < y < lit.len() - 1 {
                    assert(name[y - 1] == s.subrange(j + 1, j + 1 + name.len())[y - 1]);
                }
            }
            assert(o.subrange(j - x, j - x + lit.len()) =~= lit);
            assert(has_prefix_at(o, j - x, bracketed(names[k])));
            assert(mentions_slot(o, names));
        } else {
            let c = s[q];
            if w.len() > 0 {
                assert(c == s.subrange(q, q + w.len())[0]);
                assert(is_ws(c));
            } else {
                assert(c == '(');
            }
            lemma_not_name_char(c);
            assert(e != q);
            assert(is_identifier(name));
            assert(name[q - j - 1] == s.subrange(j + 1, j + 1 + name.len())[q - j - 1]);
        }
    }
}

proof fn lemma_location_end_at(names: Seq<Seq<char>>, s: Seq<char>, i: int, m: int)
    requires
        0 <= i <= m < s.len(),
        forall|j: int|
            i <= j < m ==> s[j] != '{' && s[j] != '}' && (#[trigger] spec_slot_ref_at(names, s, j))
                is None,
        spec_slot_ref_at(names, s, m) is Some,
    ensures
        spec_location_end(names, s, i) == m,
    decreases m - i,
{
    if i < m {
        lemma_location_end_at(names, s, i + 1, m);
    }
}

/// An object written as its text, whitespace, and a slot name in brackets
/// reads as that text and that slot.
pub proof fn lemma_object_at(
    names: Seq<Seq<char>>,
    s: Seq<char>,
    x: int,
    o: Seq<char>,
    w: Seq<char>,
    p: Seq<char>,
)
    requires
        good_names(names),
        names.contains(p),
        plain_object(o, names),
        forall|i: int| 0 <= i < w.len() ==> is_ws(#[trigger] w[i]),
        0 <= x,
        x + o.len() + w.len() + p.len() + 2 <= s.len(),
        s.subrange(x, x + o.len() + w.len() + p.len() + 2) == o + w + bracketed(p),
    ensures
        spec_object_at(names, s, x) == Some(
            (ObjectView { object: o, player: p }, x + o.len() + w.len() + p.len() + 2),
        ),
{
    let m = x + o.len() + w.len();
    let whole = o + w + bracketed(p);
    let sub = s.subrange(x, x + o.len() + w.len() + p.len() + 2);
    assert forall|y: int| 0 <= y < whole.len() implies s[x + y] == #[trigger] whole[y] by {
        assert(s[x + y] == sub[y]);
    }
    assert(s.subrange(x, x + o.len()) =~= o) by {
        assert forall|y: int| 0 <= y < o.len() implies s[x + y] == o[y] by {
            assert(whole[y] == o[y]);
        }
    }
    assert(s.subrange(x + o.len(), m) =~= w) by {
        assert forall|y: int| 0 <= y < w.len() implies s[x + o.len() + y] == w[y] by {
            assert(whole[o.len() + y] == w[y]);
        }
    }
    assert(s[m] == '(') by {
        assert(whole[(o.len() + w.len()) as int] == '(');
    }
    assert(s.subrange(m + 1, m + 1 + p.len()) =~= p) by {
        assert forall|y: int| 0 <= y < p.len() implies s[m + 1 + y] == p[y] by {
            assert(whole[o.len() + w.len() + 1 + y] == p[y]);
        }
    }
    assert(s[m + 1 + p.len()] == ')') by {
        assert(whole[(o.len() + w.len() + 1 + p.len()) as int] == ')');
    }
    lemma_existing_slot_is(names, s, m + 1, p);
    assert forall|j: int|
        x <= j < m implies s[j] != '{' && s[j] != '}' && (#[trigger] spec_slot_ref_at(
        names,
        s,
        j,
    )) is None by {
        if j < x + o.len() {
            lemma_no_ref_in_object(names, s, x, o, w, j);
            assert(s[j] == o[j - x]);
            if s[j] == '{' || s[j] == '}' {
                assert(o.contains(s[j]));
            }
        } else {
            assert(s[j] == w[j - x - o.len()]);
            assert(is_ws(s[j]));
        }
    }
    lemma_location_end_at(names, s, x, m);
    assert(s.subrange(x, m) =~= o + w);
    lemma_trim_ws_suffix(o, w);
}

/// The object line `o (p)` reads as the object `o` of the slot `p`.
pub proof fn lemma_object_line(names: Seq<Seq<char>>, o: Seq<char>, p: Seq<char>)
    requires
        good_names(names),
        names.contains(p),
        plain_object(o, names),
    ensures
        spec_object_at(names, object_text(o, p), 0) == Some(
            (ObjectView { object: o, player: p }, object_text(o, p).len() as int),
        ),
{
    let s = object_text(o, p);
    assert(s.subrange(0, (o.len() + 1 + p.len() + 2) as int) =~= o + seq![' '] + bracketed(p));
    lemma_object_at(names, s, 0, o, seq![' '], p);
}

/// `l (s): i (r)`: a check sent from the slot `s`'s location `l` to the
/// slot `r`'s item `i`.
pub open spec fn sent_check_text(l: Seq<char>, sender: Seq<char>, i: Seq<char>, r: Seq<char>) -> Seq<
    char,
> {
    object_text(l, sender) + seq![':', ' '] + object_text(i, r)
}

/// An object written after some whitespace reads, from the first character
/// that is not whitespace, as its text and slot.
proof fn lemma_object_after_ws(
    names: Seq<Seq<char>>,
    s: Seq<char>,
    x: int,
    w0: Seq<char>,
    o: Seq<char>,
    p: Seq<char>,
)
    requires
        good_names(names),
        names.contains(p),
        plain_object(o, names),
        forall|i: int| 0 <= i < w0.len() ==> is_ws(#[trigger] w0[i]),
        0 <= x,
        x + w0.len() + object_text(o, p).len() <= s.len(),
        s.subrange(x, x + w0.len() + object_text(o, p).len()) == w0 + object_text(o, p),
    ensures
        spec_object_at(names, s, skip_ws(s, x)) == Some(
            (ObjectView { object: o, player: p }, x + w0.len() + object_text(o, p).len()),
        ),
{
    let t = w0 + object_text(o, p);
    let y = x + w0.len();
    assert forall|k: int| 0 <= k < t.len() implies s[x + k] == #[trigger] t[k] by {
        assert(s[x + k] == s.subrange(x, x + t.len())[k]);
    }
    let ot = object_text(o, p);
    if o.len() > 0 {
        lemma_trimmed_ends(o);
        assert forall|k: int| x <= k < y implies ws_pred()(#[trigger] s[k]) by {
            assert(s[k] == t[k - x]);
            assert(t[k - x] == w0[k - x]);
        }
        assert(s[y] == t[w0.len() as int]);
        assert(t[w0.len() as int] == o[0]);
        lemma_run_end_at(s, x, y, ws_pred());
        assert(s.subrange(y, y + ot.len()) =~= o + seq![' '] + bracketed(p)) by {
            assert forall|k: int| 0 <= k < ot.len() implies s.subrange(y, y + ot.len())[k]
                == ot[k] by {
                assert(s[y + k] == t[w0.len() + k]);
            }
        }
        lemma_object_at(names, s, y, o, seq![' '], p);
    } else {
        assert forall|k: int| x <= k < y + 1 implies ws_pred()(#[trigger] s[k]) by {
            assert(s[k] == t[k - x]);
            if k < y {
                assert(t[k - x] == w0[k - x]);
            } else {
                assert(t[k - x] == ot[0]);
            }
        }
        assert(s[y + 1] == t[w0.len() as int + 1]);
        assert(t[w0.len() as int + 1] == ot[1]);
        lemma_run_end_at(s, x, y + 1, ws_pred());
        let e = Seq::<char>::empty();
        assert(trim(e) =~= e);
        assert(!mentions_slot(e, names));
        assert(plain_object(e, names));
        assert(s.subrange(y + 1, y + ot.len()) =~= e + e + bracketed(p)) by {
            assert forall|k: int| 0 <= k < ot.len() - 1 implies s.subrange(y + 1, y + ot.len())[k]
                == bracketed(p)[k] by {
                assert(s[y + 1 + k] == t[w0.len() + 1 + k]);
                assert(ot[1 + k] == bracketed(p)[k]);
            }
        }
        lemma_object_at(names, s, y + 1, e, e, p);
    }
}

/// The playthrough line `l (s): i (r)` reads as the check sent from `s`'s
/// location `l` to `r`'s item `i`.
pub proof fn lemma_sent_check_line(
    names: Seq<Seq<char>>,
    l: Seq<char>,
    sender: Seq<char>,
    i: Seq<char>,
    r: Seq<char>,
)
    requires
        good_names(names),
        names.contains(sender),
        names.contains(r),
        plain_object(l, names),
        plain_object(i, names),
    ensures
        spec_check_at(names, sent_check_text(l, sender, i, r), 0) == Some(
            (
                EntryView { location: l, item: i, sender: sender, receiver: r },
                sent_check_text(l, sender, i, r).len() as int,
            ),
        ),
{
    let s = sent_check_text(l, sender, i, r);
    let ot1 = object_text(l, sender);
    let ot2 = object_text(i, r);
    let e = Seq::<char>::empty();
    assert(s.subrange(0, ot1.len() as int) =~= e + ot1);
    lemma_object_after_ws(names, s, 0, e, l, sender);
    let b = ot1.len() as int;
    assert(s[b] == ':');
    lemma_run_end_at(s, b, b, ws_pred());
    assert(s.subrange(b + 1, s.len() as int) =~= seq![' '] + ot2);
    lemma_object_after_ws(names, s, b + 1, seq![' '], i, r);
}

/// The playthrough line `i (r)` reads as the item `i` that the server hands
/// out to `r` at the start.
pub proof fn lemma_starting_check_line(names: Seq<Seq<char>>, i: Seq<char>, r: Seq<char>)
    requires
        good_names(names),
        names.contains(r),
        plain_object(i, names),
    ensures
        spec_check_at(names, object_text(i, r), 0) == Some(
            (
                EntryView {
                    location: server_name(),
                    item: i,
                    sender: archipelago_name(),
                    receiver: r,
                },
                object_text(i, r).len() as int,
            ),
        ),
{
    let s = object_text(i, r);
    let e = Seq::<char>::empty();
    assert(s.subrange(0, s.len() as int) =~= e + s);
    lemma_object_after_ws(names, s, 0, e, i, r);
    lemma_run_end(s, s.len() as int, ws_pred());
    assert(spec_sent_check_at(names, s, 0) is None);
    assert(s.subrange(0, s.len() as int) =~= i + seq![' '] + bracketed(r));
    lemma_object_at(names, s, 0, i, seq![' '], r);
}

// ---------------------------------------------------------------------------
// Reading a suffix of the text
// ---------------------------------------------------------------------------

/// A result read in a suffix that starts at `d`, its end made relative to
/// the suffix.
pub open spec fn unshift<V>(r: Option<(V, int)>, d: int) -> Option<(V, int)> {
    match r {
        Some((v, e)) => Some((v, e - d)),
        None => None,
    }
}

proof fn lemma_shift_prefix(s: Seq<char>, d: int, j: int, lit: Seq<char>)
    requires
        0 <= d <= s.len(),
        0 <= j,
    ensures
        has_prefix_at(s.skip(d), j, lit) == has_prefix_at(s, d + j, lit),
{
    if j + lit.len() <= s.len() - d {
        assert(s.skip(d).subrange(j, j + lit.len()) =~= s.subrange(d + j, d + j + lit.len()));
    }
}

proof fn lemma_shift_pick(names: Seq<Seq<char>>, s: Seq<char>, d: int, j: int, k: int)
    requires
        0 <= d <= s.len(),
        0 <= j,
    ensures
        spec_pick_slot(names, s.skip(d), j, k) == spec_pick_slot(names, s, d + j, k),
    decreases names.len() - k,
{
    if 0 <= k < names.len() {
        lemma_shift_prefix(s, d, j, names[k]);
        lemma_shift_pick(names, s, d, j, k + 1);
    }
}

proof fn lemma_shift_slot_ref(names: Seq<Seq<char>>, s: Seq<char>, d: int, j: int)
    requires
        0 <= d <= s.len(),
        0 <= j,
    ensures
        spec_slot_ref_at(names, s.skip(d), j) == unshift(spec_slot_ref_at(names, s, d + j), d),
{
    lemma_shift_pick(names, s, d, j + 1, 0);
    let t = s.skip(d);
    if j < t.len() {
        assert(t[j] == s[d + j]);
    }
    if let Some((k, e)) = spec_existing_slot_at(names, t, j + 1) {
        if e < t.len() {
            assert(t[e] == s[d + e]);
        }
    }
}

proof fn lemma_shift_location_end(names: Seq<Seq<char>>, s: Seq<char>, d: int, j: int)
    requires
        0 <= d <= s.len(),
        0 <= j,
    ensures
        spec_location_end(names, s.skip(d), j) == spec_location_end(names, s, d + j) - d,
    decreases s.len() - d - j,
{
    let t = s.skip(d);
    lemma_shift_slot_ref(names, s, d, j);
    if j < t.len() {
        assert(t[j] == s[d + j]);
        lemma_shift_location_end(names, s, d, j + 1);
    }
}

proof fn lemma_shift_object(names: Seq<Seq<char>>, s: Seq<char>, d: int, j: int)
    requires
        0 <= d <= s.len(),
        0 <= j,
    ensures
        spec_object_at(names, s.skip(d), j) == unshift(spec_object_at(names, s, d + j), d),
{
    let t = s.skip(d);
    lemma_shift_location_end(names, s, d, j);
    let m = spec_location_end(names, t, j);
    if j <= t.len() {
        lemma_location_end(names, t, j);
    }
    lemma_shift_slot_ref(names, s, d, m);
    if spec_slot_ref_at(names, t, m) is Some {
        crate::parser::lemma_slot_ref_bounds(names, t, m);
        if j <= t.len() {
            lemma_location_end(names, t, j);
        }
        assert(t.subrange(j, m) =~= s.subrange(d + j, d + m));
    }
}

proof fn lemma_shift_skip_ws(s: Seq<char>, d: int, j: int)
    requires
        0 <= d <= s.len(),
        0 <= j,
    ensures
        skip_ws(s.skip(d), j) == skip_ws(s, d + j) - d,
        j <= skip_ws(s.skip(d), j),
{
    lemma_run_end_skip(s, d, j, ws_pred());
    if j <= s.len() - d {
        lemma_run_end(s.skip(d), j, ws_pred());
    }
}

proof fn lemma_shift_check(names: Seq<Seq<char>>, s: Seq<char>, d: int, j: int)
    requires
        0 <= d <= s.len(),
        0 <= j,
    ensures
        spec_check_at(names, s.skip(d), j) == unshift(spec_check_at(names, s, d + j), d),
{
    let t = s.skip(d);
    lemma_shift_skip_ws(s, d, j);
    let a = skip_ws(t, j);
    lemma_shift_object(names, s, d, a);
    lemma_shift_object(names, s, d, j);
    if let Some((send, b)) = spec_object_at(names, t, a) {
        crate::parser::lemma_object_bounds(names, t, a);
        lemma_shift_skip_ws(s, d, b);
        let c = skip_ws(t, b);
        if 0 <= c < t.len() {
            assert(t[c] == s[d + c]);
        }
        lemma_shift_skip_ws(s, d, c + 1);
        lemma_shift_object(names, s, d, skip_ws(t, c + 1));
    }
}

proof fn lemma_shift_entries(names: Seq<Seq<char>>, s: Seq<char>, d: int, j: int)
    requires
        0 <= d <= s.len(),
        0 <= j,
    ensures
        spec_entries_from(names, s.skip(d), j).0 == spec_entries_from(names, s, d + j).0,
        spec_entries_from(names, s.skip(d), j).1 == spec_entries_from(names, s, d + j).1 - d,
    decreases s.len() - d - j,
{
    let t = s.skip(d);
    lemma_shift_skip_ws(s, d, j);
    let a = skip_ws(t, j);
    lemma_shift_check(names, s, d, a);
    if let Some((e, b)) = spec_check_at(names, t, a) {
        lemma_check_bounds(names, t, a);
        assert(j <= a < b <= t.len());
        lemma_shift_skip_ws(s, d, b);
        let next = skip_ws(t, b);
        lemma_run_end(t, b, ws_pred());
        assert(b <= next <= t.len());
        assert(s.len() - d - next < s.len() - d - j);
        lemma_shift_entries(names, s, d, next);
    }
}

proof fn lemma_shift_sphere_body(names: Seq<Seq<char>>, s: Seq<char>, d: int, b: int)
    requires
        0 <= d <= s.len(),
        0 <= b,
    ensures
        spec_sphere_body_at(names, s.skip(d), b) == unshift(
            spec_sphere_body_at(names, s, d + b),
            d,
        ),
{
    let t = s.skip(d);
    if b < t.len() {
        assert(t[b] == s[d + b]);
        lemma_shift_skip_ws(s, d, b + 1);
        let c = skip_ws(t, b + 1);
        assert(skip_ws(s, d + b + 1) == d + c);
        if c < t.len() {
            assert(t[c] == s[d + c]);
            crate::parser::lemma_entries_bounds(names, t, c + 1);
            lemma_shift_entries(names, s, d, c + 1);
            assert(spec_entries_from(names, s, d + c + 1).1 == spec_entries_from(names, t, c + 1).1
                + d);
            let r = spec_entries_from(names, t, c + 1).1;
            if 0 <= r < t.len() {
                assert(t[r] == s[d + r]);
            }
        }
    }
}

proof fn lemma_shift_sphere(names: Seq<Seq<char>>, s: Seq<char>, d: int, j: int)
    requires
        0 <= d <= s.len(),
        0 <= j,
    ensures
        spec_sphere_at(names, s.skip(d), j) == unshift(spec_sphere_at(names, s, d + j), d),
{
    let t = s.skip(d);
    lemma_shift_skip_ws(s, d, j);
    let a = skip_ws(t, j);
    if a < t.len() {
        assert(t[a] == s[d + a]);
        if t[a] != '0' {
            lemma_run_end_skip(s, d, a + 1, digit_pred());
            lemma_run_end(t, a + 1, digit_pred());
        }
        lemma_shift_sphere_body(names, s, d, spec_number_end(t, a));
    }
}

proof fn lemma_shift_spheres(names: Seq<Seq<char>>, s: Seq<char>, d: int, j: int)
    requires
        0 <= d <= s.len(),
        0 <= j,
    ensures
        spec_spheres_from(names, s.skip(d), j) == spec_spheres_from(names, s, d + j),
    decreases s.len() - d - j,
{
    let t = s.skip(d);
    lemma_shift_sphere(names, s, d, j);
    if let Some((v, e)) = spec_sphere_at(names, t, j) {
        lemma_sphere_bounds(names, t, j);
        lemma_run_end_skip(s, d, e, newline_pred());
        lemma_run_end(t, e, newline_pred());
        lemma_shift_spheres(names, s, d, run_end(t, e, newline_pred()));
    }
}

// ---------------------------------------------------------------------------
// Sphere numbers and the text before the playthrough
// ---------------------------------------------------------------------------

/// A sphere number: `0`, or a non-zero digit followed by any digits.
pub open spec fn is_number_literal(n: Seq<char>) -> bool {
    &&& n.len() > 0
    &&& forall|k: int| 0 <= k < n.len() ==> is_digit(#[trigger] n[k])
    &&& n[0] == '0' ==> n.len() == 1
}

/// The sphere that `n + rest` reads as, read from `rest` alone.
proof fn lemma_sphere_after_number(names: Seq<Seq<char>>, n: Seq<char>, rest: Seq<char>)
    requires
        is_number_literal(n),
        rest.len() == 0 || !is_digit(rest[0]),
    ensures
        spec_whole_sphere(names, n + rest) == match spec_sphere_body_at(names, rest, 0) {
            Some((v, e)) => if e == rest.len() {
                Some(v)
            } else {
                None
            },
            None => None,
        },
{
    let s = n + rest;
    assert(s[0] == n[0]);
    lemma_run_end_at(s, 0, 0, ws_pred());
    if n[0] != '0' {
        assert forall|k: int| 1 <= k < n.len() implies digit_pred()(#[trigger] s[k]) by {
            assert(s[k] == n[k]);
        }
        if rest.len() > 0 {
            assert(s[n.len() as int] == rest[0]);
        }
        lemma_run_end_at(s, 1, n.len() as int, digit_pred());
    }
    assert(spec_number_end(s, 0) == n.len());
    assert(s.skip(n.len() as int) =~= rest);
    lemma_shift_sphere_body(names, s, n.len() as int, 0);
}

/// A sphere reads the same whatever its number: the number is required but
/// not kept.
pub proof fn lemma_sphere_number_ignored(
    names: Seq<Seq<char>>,
    n1: Seq<char>,
    n2: Seq<char>,
    rest: Seq<char>,
)
    requires
        is_number_literal(n1),
        is_number_literal(n2),
        rest.len() == 0 || !is_digit(rest[0]),
    ensures
        spec_whole_sphere(names, n1 + rest) == spec_whole_sphere(names, n2 + rest),
{
    lemma_sphere_after_number(names, n1, rest);
    lemma_sphere_after_number(names, n2, rest);
}

proof fn lemma_find_at(s: Seq<char>, i: int, m: int, lit: Seq<char>)
    requires
        0 <= i <= m <= s.len(),
        forall|q: int| i <= q < m ==> !#[trigger] has_prefix_at(s, q, lit),
        has_prefix_at(s, m, lit),
    ensures
        spec_find_from(s, i, lit) == m,
    decreases m - i,
{
    if i < m {
        lemma_find_at(s, i + 1, m, lit);
    }
}

/// Text before the first `Playthrough` is not read: a log that starts with
/// `Playthrough` reads the same with any text in front that does not hold
/// the word.
pub proof fn lemma_playthrough_ignores_leading_text(
    names: Seq<Seq<char>>,
    p: Seq<char>,
    s: Seq<char>,
)
    requires
        forall|q: int| !#[trigger] has_prefix_at(p, q, playthrough_keyword()),
        has_prefix_at(s, 0, playthrough_keyword()),
    ensures
        spec_playthrough(names, p + s) == spec_playthrough(names, s),
{
    let u = p + s;
    let d = p.len() as int;
    let kw = playthrough_keyword();
    lemma_keyword_after_text(p, s);
    assert(u.skip(d) =~= s);
    lemma_find_at(s, 0, 0, kw);
    assert(spec_find_from(u, 0, kw) == d);
    assert(spec_find_from(s, 0, kw) == 0);
    lemma_shift_skip_ws(u, d, 11);
    let b = skip_ws(s, 11);
    assert(skip_ws(u, d + 11) == d + b);
    if b < s.len() {
        assert(s[b] == u[d + b]);
    }
    lemma_shift_skip_ws(u, d, b + 1);
    let start = skip_ws(s, b + 1);
    assert(skip_ws(u, d + b + 1) == d + start);
    lemma_shift_spheres(names, u, d, start);
    assert(spec_spheres_from(names, u, d + start) == spec_spheres_from(names, s, start));
}

/// The first `Playthrough` of `p + s` is the one that starts `s`, when `p`
/// does not hold the word.
proof fn lemma_keyword_after_text(p: Seq<char>, s: Seq<char>)
    requires
        forall|q: int| !#[trigger] has_prefix_at(p, q, playthrough_keyword()),
        has_prefix_at(s, 0, playthrough_keyword()),
    ensures
        spec_find_from(p + s, 0, playthrough_keyword()) == p.len(),
        has_prefix_at(p + s, p.len() as int, playthrough_keyword()),
{
    let u = p + s;
    let d = p.len() as int;
    let kw = playthrough_keyword();
    assert(u.skip(d) =~= s);
    assert(s[0] == kw[0]) by {
        assert(s.subrange(0, 11)[0] == s[0]);
    }
    assert forall|q: int| 0 <= q < d implies !#[trigger] has_prefix_at(u, q, kw) by {
        if has_prefix_at(u, q, kw) {
            if q + 11 <= d {
                assert(u.subrange(q, q + 11) =~= p.subrange(q, q + 11));
                assert(has_prefix_at(p, q, kw));
            } else {
                assert(u[d] == s[0]);
                assert(u[d] == u.subrange(q, q + 11)[d - q]);
                assert(kw[d - q] != 'P');
            }
        }
    }
    lemma_shift_prefix(u, d, 0, kw);
    lemma_find_at(u, 0, d, kw);
}

// ---------------------------------------------------------------------------
// The text after the playthrough
// ---------------------------------------------------------------------------

/// `s1` and `s2` hold the same characters up to and including position `l`.
pub open spec fn agree_up_to(s1: Seq<char>, s2: Seq<char>, l: int) -> bool {
    &&& 0 <= l < s1.len()
    &&& l < s2.len()
    &&& forall|k: int| 0 <= k <= l ==> s1[k] == #[trigger] s2[k]
}

proof fn lemma_agree_run(s1: Seq<char>, s2: Seq<char>, l: int, i: int, f: spec_fn(char) -> bool)
    requires
        agree_up_to(s1, s2, l),
        0 <= i <= l,
        !f(s1[l]),
    ensures
        run_end(s1, i, f) == run_end(s2, i, f),
        run_end(s1, i, f) <= l,
    decreases l - i,
{
    assert(s1[i] == s2[i]);
    if i < l && f(s1[i]) {
        lemma_agree_run(s1, s2, l, i + 1, f);
    }
}

proof fn lemma_agree_pick(
    names: Seq<Seq<char>>,
    s1: Seq<char>,
    s2: Seq<char>,
    l: int,
    i: int,
    k: int,
)
    requires
        all_identifiers(names),
        agree_up_to(s1, s2, l),
        !is_ident_char(s1[l]),
        0 <= i <= l,
    ensures
        spec_pick_slot(names, s1, i, k) == spec_pick_slot(names, s2, i, k),
        spec_pick_slot(names, s1, i, k) matches Some(x) ==> i + names[x].len() <= l,
    decreases names.len() - k,
{
    if 0 <= k < names.len() {
        let n = names[k];
        assert(is_identifier(n));
        if i + n.len() <= l {
            assert(s1.subrange(i, i + n.len()) =~= s2.subrange(i, i + n.len()));
        } else {
            if has_prefix_at(s1, i, n) {
                assert(n[l - i] == s1.subrange(i, i + n.len())[l - i]);
            }
            if has_prefix_at(s2, i, n) {
                assert(n[l - i] == s2.subrange(i, i + n.len())[l - i]);
                assert(s2[l] == s1[l]);
            }
        }
        lemma_agree_pick(names, s1, s2, l, i, k + 1);
    }
}

proof fn lemma_agree_slot_ref(names: Seq<Seq<char>>, s1: Seq<char>, s2: Seq<char>, l: int, j: int)
    requires
        all_identifiers(names),
        agree_up_to(s1, s2, l),
        s1[l] == '}',
        0 <= j <= l,
    ensures
        spec_slot_ref_at(names, s1, j) == spec_slot_ref_at(names, s2, j),
        spec_slot_ref_at(names, s1, j) matches Some((k, n)) ==> n <= l,
{
    assert(s1[j] == s2[j]);
    if j < l && s1[j] == '(' {
        lemma_agree_pick(names, s1, s2, l, j + 1, 0);
        if let Some(x) = spec_pick_slot(names, s1, j + 1, 0) {
            let e = j + 1 + names[x].len();
            assert(s1[e] == s2[e]);
        }
    }
}

proof fn lemma_agree_location_end(
    names: Seq<Seq<char>>,
    s1: Seq<char>,
    s2: Seq<char>,
    l: int,
    j: int,
)
    requires
        all_identifiers(names),
        agree_up_to(s1, s2, l),
        s1[l] == '}',
        0 <= j <= l,
    ensures
        spec_location_end(names, s1, j) == spec_location_end(names, s2, j),
        j <= spec_location_end(names, s1, j) <= l,
    decreases l - j,
{
    assert(s1[j] == s2[j]);
    lemma_agree_slot_ref(names, s1, s2, l, j);
    if j < l {
        lemma_agree_location_end(names, s1, s2, l, j + 1);
    }
}

proof fn lemma_agree_object(names: Seq<Seq<char>>, s1: Seq<char>, s2: Seq<char>, l: int, j: int)
    requires
        all_identifiers(names),
        agree_up_to(s1, s2, l),
        s1[l] == '}',
        0 <= j <= l,
    ensures
        spec_object_at(names, s1, j) == spec_object_at(names, s2, j),
        spec_object_at(names, s1, j) matches Some((o, n)) ==> n <= l,
{
    lemma_agree_location_end(names, s1, s2, l, j);
    let m = spec_location_end(names, s1, j);
    lemma_agree_slot_ref(names, s1, s2, l, m);
    assert(s1.subrange(j, m) =~= s2.subrange(j, m));
}

proof fn lemma_agree_check(names: Seq<Seq<char>>, s1: Seq<char>, s2: Seq<char>, l: int, j: int)
    requires
        all_identifiers(names),
        agree_up_to(s1, s2, l),
        s1[l] == '}',
        0 <= j <= l,
    ensures
        spec_check_at(names, s1, j) == spec_check_at(names, s2, j),
        spec_check_at(names, s1, j) matches Some((e, n)) ==> n <= l,
{
    lemma_agree_run(s1, s2, l, j, ws_pred());
    lemma_run_end(s1, j, ws_pred());
    let a = skip_ws(s1, j);
    lemma_agree_object(names, s1, s2, l, a);
    lemma_agree_object(names, s1, s2, l, j);
    if let Some((send, b)) = spec_object_at(names, s1, a) {
        lemma_object_bounds_le(names, s1, a);
        lemma_agree_run(s1, s2, l, b, ws_pred());
        lemma_run_end(s1, b, ws_pred());
        let c = skip_ws(s1, b);
        assert(s1[c] == s2[c]);
        if s1[c] == ':' {
            lemma_agree_run(s1, s2, l, c + 1, ws_pred());
            lemma_run_end(s1, c + 1, ws_pred());
            lemma_agree_object(names, s1, s2, l, skip_ws(s1, c + 1));
        }
    }
}

proof fn lemma_object_bounds_le(names: Seq<Seq<char>>, s: Seq<char>, a: int)
    ensures
        spec_object_at(names, s, a) matches Some((o, n)) ==> 0 <= a < n,
{
    crate::parser::lemma_object_bounds(names, s, a);
}

proof fn lemma_agree_entries(names: Seq<Seq<char>>, s1: Seq<char>, s2: Seq<char>, l: int, j: int)
    requires
        all_identifiers(names),
        agree_up_to(s1, s2, l),
        s1[l] == '}',
        0 <= j <= l,
    ensures
        spec_entries_from(names, s1, j) == spec_entries_from(names, s2, j),
        spec_entries_from(names, s1, j).1 <= l,
    decreases l - j,
{
    lemma_agree_run(s1, s2, l, j, ws_pred());
    let a = skip_ws(s1, j);
    lemma_run_end(s1, j, ws_pred());
    lemma_agree_check(names, s1, s2, l, a);
    if let Some((e, b)) = spec_check_at(names, s1, a) {
        lemma_check_bounds(names, s1, a);
        lemma_agree_run(s1, s2, l, b, ws_pred());
        lemma_run_end(s1, b, ws_pred());
        lemma_agree_entries(names, s1, s2, l, skip_ws(s1, b));
    }
}

/// A sphere that ends at `l + 1` reads the same in any text that agrees up
/// to its closing brace.
proof fn lemma_agree_sphere(names: Seq<Seq<char>>, s1: Seq<char>, s2: Seq<char>, l: int, i: int)
    requires
        all_identifiers(names),
        agree_up_to(s1, s2, l),
        0 <= i,
        spec_sphere_at(names, s1, i) matches Some((v, e)) && e == l + 1,
    ensures
        spec_sphere_at(names, s2, i) == spec_sphere_at(names, s1, i),
{
    lemma_sphere_bounds(names, s1, i);
    let a = skip_ws(s1, i);
    let b = spec_number_end(s1, a);
    let c = skip_ws(s1, b + 1);
    let r = spec_entries_from(names, s1, c + 1).1;
    assert(r == l);
    lemma_run_end(s1, i, ws_pred());
    if s1[a] != '0' {
        lemma_run_end(s1, a + 1, digit_pred());
    }
    lemma_run_end(s1, b + 1, ws_pred());
    crate::parser::lemma_entries_bounds(names, s1, c + 1);
    assert(i <= a < b < c < r);
    lemma_agree_run(s1, s2, l, i, ws_pred());
    assert(s1[a] == s2[a]);
    if s1[a] != '0' {
        lemma_agree_run(s1, s2, l, a + 1, digit_pred());
    }
    assert(s1[b] == s2[b]);
    lemma_agree_run(s1, s2, l, b + 1, ws_pred());
    assert(s1[c] == s2[c]);
    lemma_agree_entries(names, s1, s2, l, c + 1);
    assert(s1[r] == s2[r]);
}

/// Where reading spheres from `j` stops: after the last sphere and the
/// newlines that follow it.
pub open spec fn spec_spheres_end(names: Seq<Seq<char>>, s: Seq<char>, j: int) -> int
    decreases s.len() - j,
{
    match spec_sphere_at(names, s, j) {
        Some((v, e)) => {
            proof {
                lemma_sphere_bounds(names, s, j);
                lemma_run_end(s, e, newline_pred());
            }
            spec_spheres_end(names, s, run_end(s, e, newline_pred()))
        },
        None => j,
    }
}

/// Where reading a playthrough stops: after its last sphere and the newlines
/// that follow it.
pub open spec fn spec_playthrough_end(names: Seq<Seq<char>>, s: Seq<char>) -> int {
    let j = spec_find_from(s, 0, playthrough_keyword());
    let b = skip_ws(s, j + 11);
    spec_spheres_end(names, s, skip_ws(s, b + 1))
}

/// The first character of `t` that is not whitespace, if any, is not a digit.
pub open spec fn starts_without_number(t: Seq<char>) -> bool {
    skip_ws(t, 0) == t.len() || !is_digit(t[skip_ws(t, 0)])
}

proof fn lemma_run_end_mid(s: Seq<char>, i: int, x: int, f: spec_fn(char) -> bool)
    requires
        0 <= i <= x <= s.len(),
        forall|k: int| i <= k < x ==> f(#[trigger] s[k]),
    ensures
        run_end(s, i, f) == run_end(s, x, f),
    decreases x - i,
{
    if i < x {
        lemma_run_end_mid(s, i + 1, x, f);
    }
}

/// After `s`, where only whitespace has been read into `t`, no sphere starts.
proof fn lemma_no_sphere_after(names: Seq<Seq<char>>, s: Seq<char>, t: Seq<char>, x: int)
    requires
        starts_without_number(t),
        s.len() <= x <= s.len() + t.len(),
        forall|k: int| s.len() <= k < x ==> is_ws(#[trigger] (s + t)[k]),
    ensures
        spec_sphere_at(names, s + t, x) is None,
        spec_spheres_from(names, s + t, x) == Seq::<Seq<EntryView>>::empty(),
{
    let u = s + t;
    let d = s.len() as int;
    assert forall|k: int| d <= k < x implies ws_pred()(#[trigger] u[k]) by {}
    lemma_run_end_mid(u, d, x, ws_pred());
    assert(u.skip(d) =~= t);
    lemma_run_end_skip(u, d, 0, ws_pred());
    let a = skip_ws(u, x);
    lemma_run_end(t, 0, ws_pred());
    assert(a == d + skip_ws(t, 0));
    if a < u.len() {
        assert(u[a] == t[a - d]);
    }
}

proof fn lemma_spheres_extend(names: Seq<Seq<char>>, s: Seq<char>, t: Seq<char>, j: int)
    requires
        all_identifiers(names),
        starts_without_number(t),
        0 <= j < s.len(),
        spec_spheres_end(names, s, j) == s.len(),
    ensures
        spec_spheres_from(names, s + t, j) == spec_spheres_from(names, s, j),
    decreases s.len() - j,
{
    let u = s + t;
    if let Some((v, e)) = spec_sphere_at(names, s, j) {
        lemma_sphere_bounds(names, s, j);
        let l = e - 1;
        assert(agree_up_to(s, u, l));
        lemma_agree_sphere(names, s, u, l, j);
        lemma_run_end(s, e, newline_pred());
        let next = run_end(s, e, newline_pred());
        assert(spec_sphere_at(names, u, j) == Some((v, e)));
        if next < s.len() {
            assert(agree_up_to(s, u, next));
            lemma_agree_run(s, u, next, e, newline_pred());
            assert(spec_spheres_end(names, s, next) == s.len());
            lemma_spheres_extend(names, s, t, next);
            assert(spec_spheres_from(names, u, j) == seq![v] + spec_spheres_from(names, u, next));
            assert(spec_spheres_from(names, s, j) == seq![v] + spec_spheres_from(names, s, next));
        } else {
            if e < s.len() {
                assert forall|k: int| e <= k < s.len() implies newline_pred()(
                    #[trigger] u[k],
                ) by {
                    assert(u[k] == s[k]);
                }
                lemma_run_end_mid(u, e, s.len() as int, newline_pred());
            }
            lemma_run_end(u, s.len() as int, newline_pred());
            lemma_run_end(u, e, newline_pred());
            let next_u = run_end(u, e, newline_pred());
            assert(s.len() <= next_u);
            assert forall|k: int| s.len() <= k < next_u implies is_ws(#[trigger] u[k]) by {
                assert(newline_pred()(u[k]));
            }
            lemma_no_sphere_after(names, s, t, next_u);
            assert(spec_sphere_at(names, s, next) is None) by {
                lemma_run_end(s, next, ws_pred());
            }
            assert(spec_spheres_from(names, u, j) == seq![v] + spec_spheres_from(names, u, next_u));
            assert(spec_spheres_from(names, s, j) == seq![v] + spec_spheres_from(names, s, next));
            assert(spec_spheres_from(names, s, next) =~= Seq::<Seq<EntryView>>::empty());
        }
    }
}

/// Text after the playthrough is not read: when the playthrough of `s` ends
/// with `s` itself, any text that does not go on with a sphere number can
/// follow it and the playthrough stays the same.
pub proof fn lemma_playthrough_ignores_trailing_text(
    names: Seq<Seq<char>>,
    s: Seq<char>,
    t: Seq<char>,
)
    requires
        all_identifiers(names),
        spec_playthrough(names, s) is Some,
        spec_playthrough_end(names, s) == s.len(),
        starts_without_number(t),
    ensures
        spec_playthrough(names, s + t) == spec_playthrough(names, s),
{
    let u = s + t;
    let kw = playthrough_keyword();
    let j = spec_find_from(s, 0, kw);
    crate::parser::lemma_find_from_bounds(s, 0, kw);
    assert(has_prefix_at(s, j, kw));
    assert forall|q: int| 0 <= q < j implies !#[trigger] has_prefix_at(u, q, kw) by {
        crate::parser::lemma_find_from_first(s, 0, kw, q);
        assert(u.subrange(q, q + 11) =~= s.subrange(q, q + 11));
    }
    assert(u.subrange(j, j + 11) =~= s.subrange(j, j + 11));
    lemma_find_at(u, 0, j, kw);
    let b = skip_ws(s, j + 11);
    assert(b < s.len() && s[b] == ':');
    lemma_run_end(s, j + 11, ws_pred());
    assert(agree_up_to(s, u, b));
    lemma_agree_run(s, u, b, j + 11, ws_pred());
    let start = skip_ws(s, b + 1);
    lemma_run_end(s, b + 1, ws_pred());
    if start < s.len() {
        assert(agree_up_to(s, u, start));
        lemma_agree_run(s, u, start, b + 1, ws_pred());
        lemma_spheres_extend(names, s, t, start);
    } else {
        assert forall|k: int| b + 1 <= k < s.len() implies ws_pred()(#[trigger] u[k]) by {
            assert(u[k] == s[k]);
        }
        lemma_run_end_mid(u, b + 1, s.len() as int, ws_pred());
        lemma_run_end(u, s.len() as int, ws_pred());
        lemma_no_sphere_after(names, s, t, skip_ws(u, b + 1));
        assert(spec_sphere_at(names, s, start) is None);
    }
}

// ---------------------------------------------------------------------------
// Slot lines
// ---------------------------------------------------------------------------

/// `w`, `Player `, `d`, `: ` and `name`: a slot line as a spoiler log
/// writes it, with leading whitespace `w` and player number `d`.
pub open spec fn slot_line_text(w: Seq<char>, d: Seq<char>, name: Seq<char>) -> Seq<char> {
    w + player_keyword() + d + seq![':', ' '] + name
}

/// A slot line made of whitespace, `Player `, digits, `: ` and an
/// identifier reads, as a whole, as that identifier.
pub proof fn lemma_slot_line(w: Seq<char>, d: Seq<char>, name: Seq<char>)
    requires
        forall|i: int| 0 <= i < w.len() ==> is_ws(#[trigger] w[i]),
        forall|i: int| 0 <= i < d.len() ==> is_digit(#[trigger] d[i]),
        is_identifier(name),
    ensures
        spec_slot_at(slot_line_text(w, d, name), 0) == Some(
            (name, slot_line_text(w, d, name).len() as int),
        ),
{
    let s = slot_line_text(w, d, name);
    let kw = player_keyword();
    let a = w.len() as int;
    let c = a + 7 + d.len();
    let e = c + 2;
    assert forall|k: int| 0 <= k < a implies ws_pred()(#[trigger] s[k]) by {
        assert(s[k] == w[k]);
    }
    assert(s[a] == 'P');
    lemma_run_end_at(s, 0, a, ws_pred());
    assert(s.subrange(a, a + 7) =~= kw);
    assert forall|k: int| a + 7 <= k < c implies digit_pred()(#[trigger] s[k]) by {
        assert(s[k] == d[k - a - 7]);
    }
    assert(s[c] == ':');
    lemma_run_end_at(s, a + 7, c, digit_pred());
    assert(s[c + 1] == ' ');
    assert(s[e] == name[0]);
    assert(is_ident_start(name[0]));
    assert forall|k: int| c + 1 <= k < e implies ws_pred()(#[trigger] s[k]) by {}
    lemma_run_end_at(s, c + 1, e, ws_pred());
    assert forall|k: int| e + 1 <= k < s.len() implies ident_pred()(#[trigger] s[k]) by {
        assert(s[k] == name[k - e]);
    }
    lemma_run_end_at(s, e + 1, s.len() as int, ident_pred());
    assert(s.subrange(e, s.len() as int) =~= name);
}

/// Whitespace before a sphere is skipped: a sphere reads the same after any
/// run of Unicode `White_Space` characters (tab, line feed, vertical tab, form
/// feed, carriage return, space, next line, no-break space, and the other
/// spaces and separators of that property).
#[verifier::spinoff_prover]
#[verifier::rlimit(30)]
pub proof fn lemma_sphere_leading_whitespace(names: Seq<Seq<char>>, w: Seq<char>, s: Seq<char>)
    requires
        forall|i: int|
            #![trigger w[i]]
            0 <= i < w.len() ==> {
                let u = w[i] as u32;
                ||| 9 <= u <= 13
                ||| u == 32
                ||| u == 0x85
                ||| u == 0xA0
                ||| u == 0x1680
                ||| 0x2000 <= u <= 0x200A
                ||| u == 0x2028
                ||| u == 0x2029
                ||| u == 0x202F
                ||| u == 0x205F
                ||| u == 0x3000
            },
    ensures
        spec_whole_sphere(names, w + s) == spec_whole_sphere(names, s),
{
    let t = w + s;
    let d = w.len() as int;
    assert forall|k: int| 0 <= k < d implies ws_pred()(#[trigger] t[k]) by {
        assert(t[k] == w[k]);
    }
    lemma_run_end_mid(t, 0, d, ws_pred());
    lemma_shift_sphere(names, t, d, 0);
    assert(t.skip(d) =~= s);
}

/// The seed is every digit that follows the first `Seed: `: in a log made of
/// text without `Seed: `, then `Seed: `, then a run of digits, then text that
/// does not start with a digit, the seed is that whole run.
#[verifier::spinoff_prover]
#[verifier::rlimit(30)]
pub proof fn lemma_seed_read(p: Seq<char>, d: Seq<char>, t: Seq<char>)
    requires
        forall|q: int|
            0 <= q && q + 6 <= p.len() ==> #[trigger] p.subrange(q, q + 6) != seq![
                'S',
                'e',
                'e',
                'd',
                ':',
                ' ',
            ],
        d.len() > 0,
        forall|i: int| 0 <= i < d.len() ==> 48 <= (#[trigger] d[i] as u32) <= 57,
        t.len() == 0 || !(48 <= (t[0] as u32) <= 57),
    ensures
        spec_seed(p + seq!['S', 'e', 'e', 'd', ':', ' '] + d + t) == Some(d),
{
    let kw = seed_keyword();
    let s = p + kw + d + t;
    let m = p.len() as int;
    let e = m + 6 + d.len();
    assert forall|q: int| 0 <= q < m implies !#[trigger] has_prefix_at(s, q, kw) by {
        if has_prefix_at(s, q, kw) {
            if q + 6 <= m {
                assert(s.subrange(q, q + 6) =~= p.subrange(q, q + 6));
            } else {
                assert(s.subrange(q, q + 6)[m - q] == s[m]);
                assert(s[m] == 'S');
            }
        }
    }
    assert(s.subrange(m, m + 6) =~= kw);
    lemma_find_at(s, 0, m, kw);
    assert forall|k: int| m + 6 <= k < e implies digit_pred()(#[trigger] s[k]) by {
        assert(s[k] == d[k - m - 6]);
    }
    if e < s.len() {
        assert(s[e] == t[0]);
    }
    lemma_run_end_at(s, m + 6, e, digit_pred());
    assert(s.subrange(m + 6, e) =~= d);
}

/// A slot line `Player N: name` reads as `name` for every ASCII identifier:
/// a letter `A`-`Z` or `a`-`z` or `_`, then letters, digits and `_`.
#[verifier::rlimit(50)]
pub proof fn lemma_slot_line_identifier(d: Seq<char>, name: Seq<char>)
    requires
        forall|i: int| 0 <= i < d.len() ==> 48 <= (#[trigger] d[i] as u32) <= 57,
        name.len() > 0,
        65 <= (name[0] as u32) <= 90 || 97 <= (name[0] as u32) <= 122 || (name[0] as u32) == 95,
        forall|i: int|
            #![trigger name[i]]
            0 <= i < name.len() ==> {
                let u = name[i] as u32;
                65 <= u <= 90 || 97 <= u <= 122 || u == 95 || 48 <= u <= 57
            },
    ensures
        spec_slot_at(player_keyword() + d + seq![':', ' '] + name, 0) == Some(
            (name, 9 + d.len() + name.len() as int),
        ),
{
    let s = player_keyword() + d + seq![':', ' '] + name;
    let c: int = 7 + d.len() as int;
    let e = c + 2;
    assert(s[0] == 'P');
    lemma_run_end_at(s, 0, 0, ws_pred());
    assert(s.subrange(0, 7) =~= player_keyword());
    assert forall|k: int| 7 <= k < c implies digit_pred()(#[trigger] s[k]) by {
        assert(s[k] == d[k - 7]);
    }
    assert(s[c] == ':');
    lemma_run_end_at(s, 7, c, digit_pred());
    assert(s[c + 1] == ' ');
    assert(s[e] == name[0]);
    assert forall|k: int| c + 1 <= k < e implies ws_pred()(#[trigger] s[k]) by {}
    lemma_run_end_at(s, c + 1, e, ws_pred());
    assert forall|k: int| e + 1 <= k < s.len() implies ident_pred()(#[trigger] s[k]) by {
        assert(s[k] == name[k - e]);
    }
    lemma_run_end_at(s, e + 1, s.len() as int, ident_pred());
    assert(s.subrange(e, s.len() as int) =~= name);
}

} // verus!
