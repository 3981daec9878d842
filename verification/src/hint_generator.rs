//! Choosing the next hint from a playthrough, and the text format of the file
//! that keeps the hints already given.
use vstd::prelude::*;
use crate::text::{chars_of, lemma_run_end, lemma_run_end_at, lemma_run_end_skip, push_char, run_end, string_of};
use crate::types::{check_matches_entry, Check, CheckView, EntryView, SpoilerEntry};

verus! {

broadcast use vstd::seq_lib::group_seq_properties;

/// Whether one of the checks in `ignored` stands for `e`.
pub open spec fn is_ignored(ignored: Seq<CheckView>, e: EntryView) -> bool {
    exists|k: int| 0 <= k < ignored.len() && check_matches_entry(#[trigger] ignored[k], e)
}

pub open spec fn open_pred(ignored: Seq<CheckView>) -> spec_fn(EntryView) -> bool {
    |e: EntryView| !is_ignored(ignored, e)
}

/// The entries of a sphere that no check of `ignored` stands for, in order.
pub open spec fn spec_open_entries(sphere: Seq<EntryView>, ignored: Seq<CheckView>) -> Seq<
    EntryView,
> {
    sphere.filter(open_pred(ignored))
}

/// The first sphere, from index `i` on, that still has an open entry.
pub open spec fn spec_first_open_from(
    playthrough: Seq<Seq<EntryView>>,
    ignored: Seq<CheckView>,
    i: int,
) -> Option<int>
    decreases playthrough.len() - i,
{
    if 0 <= i < playthrough.len() {
        if spec_open_entries(playthrough[i], ignored).len() > 0 {
            Some(i)
        } else {
            spec_first_open_from(playthrough, ignored, i + 1)
        }
    } else {
        None
    }
}

/// The first sphere of the playthrough that still has an open entry.
pub open spec fn spec_first_open(playthrough: Seq<Seq<EntryView>>, ignored: Seq<CheckView>) -> Option<
    int,
> {
    spec_first_open_from(playthrough, ignored, 0)
}

/// The checks that stand for hints already given and checks already
/// collected: an entry is left out when it equals one of them.
pub open spec fn spoiler_checks(collected: Seq<EntryView>, hinted: Seq<EntryView>) -> Seq<
    CheckView,
> {
    as_spoiler_checks(collected + hinted)
}

/// Each entry as a check that stands for it.
pub open spec fn as_spoiler_checks(entries: Seq<EntryView>) -> Seq<CheckView> {
    entries.map_values(|e: EntryView| CheckView::Spoiler(e))
}

pub proof fn lemma_first_open_from(
    playthrough: Seq<Seq<EntryView>>,
    ignored: Seq<CheckView>,
    i: int,
)
    requires
        0 <= i,
    ensures
        match spec_first_open_from(playthrough, ignored, i) {
            Some(j) => i <= j < playthrough.len() && spec_open_entries(playthrough[j], ignored).len()
                > 0 && forall|k: int|
                i <= k < j ==> spec_open_entries(#[trigger] playthrough[k], ignored).len() == 0,
            None => forall|k: int|
                i <= k < playthrough.len() ==> spec_open_entries(#[trigger] playthrough[k], ignored).len()
                    == 0,
        },
    decreases playthrough.len() - i,
{
    if i < playthrough.len() && spec_open_entries(playthrough[i], ignored).len() == 0 {
        lemma_first_open_from(playthrough, ignored, i + 1);
    }
}

/// Whether one of the checks stands for `entry`.
fn ignores(ignored: &Vec<Check>, entry: &SpoilerEntry) -> (r: bool)
    ensures
        r == is_ignored(ignored.deep_view(), entry@),
{
    let ghost iv = ignored.deep_view();
    let mut k: usize = 0;
    while k < ignored.len()
        invariant
            k <= ignored.len(),
            iv == ignored.deep_view(),
            forall|x: int| 0 <= x < k ==> !check_matches_entry(#[trigger] iv[x], entry@),
        decreases ignored.len() - k,
    {
        assert(iv[k as int] == ignored@[k as int]@);
        if ignored[k] == *entry {
            return true;
        }
        k += 1;
    }
    false
}

/// The entries of `sphere` that no check of `ignored` stands for, in order.
pub fn open_entries(sphere: &Vec<SpoilerEntry>, ignored: &Vec<Check>) -> (r: Vec<SpoilerEntry>)
    ensures
        r.deep_view() == spec_open_entries(sphere.deep_view(), ignored.deep_view()),
{
    let ghost sv = sphere.deep_view();
    let ghost pred = open_pred(ignored.deep_view());
    let mut r: Vec<SpoilerEntry> = Vec::new();
    let mut k: usize = 0;
    while k < sphere.len()
        invariant
            k <= sphere.len(),
            sv == sphere.deep_view(),
            pred == open_pred(ignored.deep_view()),
            r.deep_view() == sv.take(k as int).filter(pred),
        decreases sphere.len() - k,
    {
        assert(sv.take(k + 1) =~= sv.take(k as int).push(sv[k as int]));
        assert(sv[k as int] == sphere@[k as int]@);
        proof {
            sv.take(k as int).lemma_filter_push(sv[k as int], pred);
        }
        if !ignores(ignored, &sphere[k]) {
            let ghost old_r = r.deep_view();
            let e = sphere[k].duplicate();
            r.push(e);
            assert(r.deep_view() =~= old_r.push(sv[k as int]));
        }
        k += 1;
    }
    assert(sv.take(k as int) =~= sv);
    r
}

/// The first sphere of the playthrough that still has an open entry, with
/// its open entries.
pub fn first_open_sphere(playthrough: &Vec<Vec<SpoilerEntry>>, ignored: &Vec<Check>) -> (r: Option<
    (usize, Vec<SpoilerEntry>),
>)
    ensures
        match r {
            Some((i, open)) => spec_first_open(playthrough.deep_view(), ignored.deep_view()) == Some(
                i as int,
            ) && open.deep_view() == spec_open_entries(
                playthrough.deep_view()[i as int],
                ignored.deep_view(),
            ),
            None => spec_first_open(playthrough.deep_view(), ignored.deep_view()) is None,
        },
{
    let ghost pv = playthrough.deep_view();
    let ghost iv = ignored.deep_view();
    let mut i: usize = 0;
    while i < playthrough.len()
        invariant
            i <= playthrough.len(),
            pv == playthrough.deep_view(),
            iv == ignored.deep_view(),
            spec_first_open_from(pv, iv, i as int) == spec_first_open(pv, iv),
        decreases playthrough.len() - i,
    {
        let open = open_entries(&playthrough[i], ignored);
        assert(pv[i as int] == playthrough@[i as int].deep_view());
        if open.len() > 0 {
            return Some((i, open));
        }
        i += 1;
    }
    None
}

/// `rand::random_range(0..len)`: an index drawn by the thread-local random
/// generator from `0..len`. rand panics on an empty range, hence `0 < len`.
/// Nothing is stated of which index comes out.
#[verifier::external_body]
fn random_index(len: usize) -> (r: usize)
    requires
        0 < len,
    ensures
        r < len,
{
    rand::random_range(0..len)
}

/// Picks a hint: an entry, drawn at random, among the open entries of the
/// first sphere that has any, with that sphere's index. An entry is open when
/// no check of `ignored` stands for it. `None` when every entry is ignored.
pub fn generate_hint_ignoring(playthrough: &Vec<Vec<SpoilerEntry>>, ignored: &Vec<Check>) -> (r:
    Option<(SpoilerEntry, usize)>)
    ensures
        match spec_first_open(playthrough.deep_view(), ignored.deep_view()) {
            Some(i) => r matches Some((e, j)) && j == i && spec_open_entries(
                playthrough.deep_view()[i],
                ignored.deep_view(),
            ).contains(e@),
            None => r is None,
        },
{
    match first_open_sphere(playthrough, ignored) {
        Some((i, open)) => {
            proof {
                lemma_first_open_from(playthrough.deep_view(), ignored.deep_view(), 0);
            }
            let k = random_index(open.len());
            let e = open[k].duplicate();
            assert(open.deep_view()[k as int] == e@);
            Some((e, i))
        },
        None => None,
    }
}

/// Picks a hint: an entry, drawn at random, among the entries of the first
/// sphere that has entries neither collected nor hinted, with that sphere's
/// index. `None` when every entry is collected or hinted.
pub fn generate_hint(
    playthrough: &Vec<Vec<SpoilerEntry>>,
    collected_checks: &Vec<SpoilerEntry>,
    hinted_checks: &Vec<SpoilerEntry>,
) -> (r: Option<(SpoilerEntry, usize)>)
    ensures
        match spec_first_open(
            playthrough.deep_view(),
            spoiler_checks(collected_checks.deep_view(), hinted_checks.deep_view()),
        ) {
            Some(i) => r matches Some((e, j)) && j == i && spec_open_entries(
                playthrough.deep_view()[i],
                spoiler_checks(collected_checks.deep_view(), hinted_checks.deep_view()),
            ).contains(e@),
            None => r is None,
        },
{
    let ghost all = collected_checks.deep_view() + hinted_checks.deep_view();
    let mut ignored: Vec<Check> = Vec::new();
    let mut k: usize = 0;
    while k < collected_checks.len()
        invariant
            k <= collected_checks.len(),
            all == collected_checks.deep_view() + hinted_checks.deep_view(),
            ignored.deep_view() == as_spoiler_checks(all.take(k as int)),
        decreases collected_checks.len() - k,
    {
        let ghost old_i = ignored.deep_view();
        let c = Check::Spoiler(collected_checks[k].duplicate());
        assert(all[k as int] == collected_checks.deep_view()[k as int]);
        assert(c@ == CheckView::Spoiler(all[k as int]));
        ignored.push(c);
        assert(ignored.deep_view() =~= old_i.push(CheckView::Spoiler(all[k as int])));
        assert(all.take(k + 1) =~= all.take(k as int).push(all[k as int]));
        k += 1;
        assert(ignored.deep_view() =~= as_spoiler_checks(all.take(k as int)));
    }
    let mut h: usize = 0;
    while h < hinted_checks.len()
        invariant
            h <= hinted_checks.len(),
            all == collected_checks.deep_view() + hinted_checks.deep_view(),
            ignored.deep_view() == as_spoiler_checks(all.take(collected_checks.len() + h)),
        decreases hinted_checks.len() - h,
    {
        let ghost old_i = ignored.deep_view();
        let ghost n = collected_checks.len() + h;
        let c = Check::Spoiler(hinted_checks[h].duplicate());
        assert(all[n] == hinted_checks.deep_view()[h as int]);
        assert(c@ == CheckView::Spoiler(all[n]));
        ignored.push(c);
        assert(ignored.deep_view() =~= old_i.push(CheckView::Spoiler(all[n])));
        assert(all.take(n + 1) =~= all.take(n).push(all[n]));
        h += 1;
        assert(ignored.deep_view() =~= as_spoiler_checks(all.take(collected_checks.len() + h)));
    }
    assert(all.take(collected_checks.len() + h) =~= all);
    generate_hint_ignoring(playthrough, &ignored)
}

/// With checks built from collected and hinted entries, an entry is left out
/// exactly when it equals a collected or a hinted entry.
pub proof fn lemma_spoiler_checks_ignore(
    collected: Seq<EntryView>,
    hinted: Seq<EntryView>,
    e: EntryView,
)
    ensures
        is_ignored(spoiler_checks(collected, hinted), e) <==> collected.contains(e)
            || hinted.contains(e),
{
    let all = collected + hinted;
    let checks = spoiler_checks(collected, hinted);
    if collected.contains(e) || hinted.contains(e) {
        assert(all.contains(e));
        let k = choose|k: int| 0 <= k < all.len() && all[k] == e;
        assert(checks[k] == CheckView::Spoiler(e));
    }
    if is_ignored(checks, e) {
        let k = choose|k: int| 0 <= k < checks.len() && check_matches_entry(#[trigger] checks[k], e);
        assert(checks[k] == CheckView::Spoiler(all[k]));
        if k < collected.len() {
            assert(collected[k] == e);
        } else {
            assert(hinted[k - collected.len()] == e);
        }
    }
}

/// A hint is an entry of its sphere that no check stands for, and every
/// entry of every earlier sphere is stood for by a check: hints follow the
/// order of the playthrough.
pub proof fn lemma_hint_is_first_open(
    playthrough: Seq<Seq<EntryView>>,
    ignored: Seq<CheckView>,
    i: int,
    e: EntryView,
)
    requires
        spec_first_open(playthrough, ignored) == Some(i),
        spec_open_entries(playthrough[i], ignored).contains(e),
    ensures
        0 <= i < playthrough.len(),
        playthrough[i].contains(e),
        !is_ignored(ignored, e),
        forall|k: int, j: int|
            0 <= k < i && 0 <= j < playthrough[k].len() ==> is_ignored(
                ignored,
                #[trigger] playthrough[k][j],
            ),
{
    lemma_first_open_from(playthrough, ignored, 0);
    let pred = open_pred(ignored);
    let x = choose|x: int|
        0 <= x < spec_open_entries(playthrough[i], ignored).len() && spec_open_entries(
            playthrough[i],
            ignored,
        )[x] == e;
    playthrough[i].lemma_filter_pred(pred, x);
    assert(playthrough[i].filter(pred).contains(e));
    playthrough[i].lemma_filter_contains_rev(pred, e);
    assert forall|k: int, j: int|
        0 <= k < i && 0 <= j < playthrough[k].len() implies is_ignored(
        ignored,
        #[trigger] playthrough[k][j],
    ) by {
        if !is_ignored(ignored, playthrough[k][j]) {
            playthrough[k].lemma_filter_contains(pred, j);
        }
    }
}

/// No hint is drawn while some sphere still has an entry that no check stands
/// for; once every entry is stood for, there is none.
pub proof fn lemma_no_hint_iff_all_ignored(playthrough: Seq<Seq<EntryView>>, ignored: Seq<CheckView>)
    ensures
        spec_first_open(playthrough, ignored) is None <==> forall|k: int, j: int|
            0 <= k < playthrough.len() && 0 <= j < playthrough[k].len() ==> is_ignored(
                ignored,
                #[trigger] playthrough[k][j],
            ),
{
    lemma_first_open_from(playthrough, ignored, 0);
    let pred = open_pred(ignored);
    if spec_first_open(playthrough, ignored) is None {
        assert forall|k: int, j: int|
            0 <= k < playthrough.len() && 0 <= j < playthrough[k].len() implies is_ignored(
            ignored,
            #[trigger] playthrough[k][j],
        ) by {
            if !is_ignored(ignored, playthrough[k][j]) {
                playthrough[k].lemma_filter_contains(pred, j);
            }
        }
    } else {
        let i = spec_first_open(playthrough, ignored).unwrap();
        let e = spec_open_entries(playthrough[i], ignored)[0];
        playthrough[i].lemma_filter_pred(pred, 0);
        playthrough[i].lemma_filter_contains_rev(pred, e);
        let j = choose|j: int| 0 <= j < playthrough[i].len() && playthrough[i][j] == e;
        assert(!is_ignored(ignored, playthrough[i][j]));
    }
}

// ---------------------------------------------------------------------------
// The file of hints already given
// ---------------------------------------------------------------------------

/// A character that may stand in a field of a stored hint.
pub open spec fn is_field_char(c: char) -> bool {
    c != ';' && c != '\n'
}

pub open spec fn field_pred() -> spec_fn(char) -> bool {
    |c: char| is_field_char(c)
}

/// A field that can be stored: it holds no `;` and no newline.
pub open spec fn storable_field(f: Seq<char>) -> bool {
    forall|i: int| 0 <= i < f.len() ==> is_field_char(#[trigger] f[i])
}

/// An entry whose four fields can be stored.
pub open spec fn storable(e: EntryView) -> bool {
    storable_field(e.location) && storable_field(e.item) && storable_field(e.sender)
        && storable_field(e.receiver)
}

/// The line that stores a hint: `location;item;sender;receiver` and a newline.
pub open spec fn hint_line(e: EntryView) -> Seq<char> {
    e.location + seq![';'] + e.item + seq![';'] + e.sender + seq![';'] + e.receiver + seq!['\n']
}

/// The text of a hint file that stores `hints`, one line each, in order.
pub open spec fn hints_text(hints: Seq<EntryView>) -> Seq<char>
    decreases hints.len(),
{
    if hints.len() == 0 {
        Seq::empty()
    } else {
        hint_line(hints[0]) + hints_text(hints.drop_first())
    }
}

/// The line of a hint file that starts at `p`: four fields separated by `;`,
/// then a newline. Yields the hint and the position after the newline.
pub open spec fn spec_line_at(s: Seq<char>, p: int) -> Option<(EntryView, int)> {
    let a = run_end(s, p, field_pred());
    let b = run_end(s, a + 1, field_pred());
    let c = run_end(s, b + 1, field_pred());
    let d = run_end(s, c + 1, field_pred());
    if 0 <= p && a < s.len() && s[a] == ';' && b < s.len() && s[b] == ';' && c < s.len() && s[c]
        == ';' && d < s.len() && s[d] == '\n' {
        Some(
            (
                EntryView {
                    location: s.subrange(p, a),
                    item: s.subrange(a + 1, b),
                    sender: s.subrange(b + 1, c),
                    receiver: s.subrange(c + 1, d),
                },
                d + 1,
            ),
        )
    } else {
        None
    }
}

pub proof fn lemma_line_at_bounds(s: Seq<char>, p: int)
    requires
        0 <= p <= s.len(),
    ensures
        spec_line_at(s, p) matches Some((e, n)) ==> p < n <= s.len(),
{
    lemma_run_end(s, p, field_pred());
    let a = run_end(s, p, field_pred());
    if a < s.len() {
        lemma_run_end(s, a + 1, field_pred());
        let b = run_end(s, a + 1, field_pred());
        if b < s.len() {
            lemma_run_end(s, b + 1, field_pred());
            let c = run_end(s, b + 1, field_pred());
            if c < s.len() {
                lemma_run_end(s, c + 1, field_pred());
            }
        }
    }
}

/// The hints stored in the text `s` of a hint file: a sequence of lines, each
/// made of four fields separated by `;` and ended by a newline. `None` when
/// the text is not of that form.
#[verifier::opaque]
pub open spec fn spec_parse_hints(s: Seq<char>) -> Option<Seq<EntryView>>
    decreases s.len(),
{
    if s.len() == 0 {
        Some(Seq::empty())
    } else {
        match spec_line_at(s, 0) {
            Some((e, n)) => {
                proof {
                    lemma_line_at_bounds(s, 0);
                }
                prepend_hints(seq![e], spec_parse_hints(s.skip(n)))
            },
            None => None,
        }
    }
}

/// `hints` followed by what `rest` reads, if it reads.
pub open spec fn prepend_hints(hints: Seq<EntryView>, rest: Option<Seq<EntryView>>) -> Option<
    Seq<EntryView>,
> {
    match rest {
        Some(r) => Some(hints + r),
        None => None,
    }
}

/// A line read in a suffix is the line read in the whole text, shifted.
#[verifier::spinoff_prover]
#[verifier::rlimit(30)]
proof fn lemma_line_at_skip(s: Seq<char>, p: int)
    requires
        0 <= p <= s.len(),
    ensures
        spec_line_at(s.skip(p), 0) == match spec_line_at(s, p) {
            Some((e, n)) => Some((e, n - p)),
            None => None,
        },
{
    let t = s.skip(p);
    lemma_run_end(s, p, field_pred());
    lemma_run_end_skip(s, p, 0, field_pred());
    let a = run_end(s, p, field_pred());
    if a < s.len() {
        assert(t[a - p] == s[a]);
        lemma_run_end(s, a + 1, field_pred());
        lemma_run_end_skip(s, p, a - p + 1, field_pred());
        let b = run_end(s, a + 1, field_pred());
        if b < s.len() {
            assert(t[b - p] == s[b]);
            lemma_run_end(s, b + 1, field_pred());
            lemma_run_end_skip(s, p, b - p + 1, field_pred());
            let c = run_end(s, b + 1, field_pred());
            if c < s.len() {
                assert(t[c - p] == s[c]);
                lemma_run_end(s, c + 1, field_pred());
                lemma_run_end_skip(s, p, c - p + 1, field_pred());
                let d = run_end(s, c + 1, field_pred());
                if d < s.len() {
                    assert(t[d - p] == s[d]);
                    assert(t.subrange(0, a - p) =~= s.subrange(p, a));
                    assert(t.subrange(a - p + 1, b - p) =~= s.subrange(a + 1, b));
                    assert(t.subrange(b - p + 1, c - p) =~= s.subrange(b + 1, c));
                    assert(t.subrange(c - p + 1, d - p) =~= s.subrange(c + 1, d));
                }
            }
        }
    }
}

/// One step of reading a hint file: the line that starts at `p`.
proof fn lemma_parse_hints_step(s: Seq<char>, p: int)
    requires
        0 <= p < s.len(),
    ensures
        spec_parse_hints(s.skip(p)) == match spec_line_at(s, p) {
            Some((e, n)) => prepend_hints(seq![e], spec_parse_hints(s.skip(n))),
            None => None,
        },
{
    reveal(spec_parse_hints);
    lemma_line_at_skip(s, p);
    lemma_line_at_bounds(s, p);
    if let Some((e, n)) = spec_line_at(s, p) {
        assert(s.skip(p).skip(n - p) =~= s.skip(n));
    }
}

/// A line that reads is the line that stores what it reads.
proof fn lemma_line_at_sound(s: Seq<char>, p: int)
    requires
        0 <= p <= s.len(),
    ensures
        spec_line_at(s, p) matches Some((e, n)) ==> storable(e) && s.subrange(p, n) == hint_line(e),
{
    lemma_run_end(s, p, field_pred());
    let a = run_end(s, p, field_pred());
    if a < s.len() {
        lemma_run_end(s, a + 1, field_pred());
        let b = run_end(s, a + 1, field_pred());
        if b < s.len() {
            lemma_run_end(s, b + 1, field_pred());
            let c = run_end(s, b + 1, field_pred());
            if c < s.len() {
                lemma_run_end(s, c + 1, field_pred());
                if let Some((e, n)) = spec_line_at(s, p) {
                    assert(storable_field(e.location));
                    assert(storable_field(e.item));
                    assert(storable_field(e.sender));
                    assert(storable_field(e.receiver));
                    assert(s.subrange(p, n) =~= hint_line(e));
                }
            }
        }
    }
}

/// The line that stores `hint` in the hint file.
pub fn format_hint(hint: &SpoilerEntry) -> (r: String)
    ensures
        r@ == hint_line(hint@),
{
    let mut r = hint.location.clone();
    push_char(&mut r, ';');
    r.append(hint.item.as_str());
    push_char(&mut r, ';');
    r.append(hint.sender.as_str());
    push_char(&mut r, ';');
    r.append(hint.receiver.as_str());
    push_char(&mut r, '\n');
    r
}

fn skip_field(s: &Vec<char>, i: usize) -> (r: usize)
    requires
        i <= s.len(),
    ensures
        r == run_end(s@, i as int, field_pred()),
        i <= r <= s.len(),
{
    proof {
        lemma_run_end(s@, i as int, field_pred());
    }
    let mut j = i;
    while j < s.len() && s[j] != ';' && s[j] != '\n'
        invariant
            i <= j <= s.len(),
            run_end(s@, j as int, field_pred()) == run_end(s@, i as int, field_pred()),
        decreases s.len() - j,
    {
        j += 1;
    }
    j
}

/// Reads the hints stored in the text of a hint file.
pub fn parse_hints(text: &str) -> (r: Option<Vec<SpoilerEntry>>)
    ensures
        match r {
            Some(v) => spec_parse_hints(text@) == Some(v.deep_view()),
            None => spec_parse_hints(text@) is None,
        },
{
    let s = chars_of(text);
    let mut out: Vec<SpoilerEntry> = Vec::new();
    let mut p: usize = 0;
    assert(s@.skip(0) =~= s@);
    assert(out.deep_view() =~= Seq::<EntryView>::empty());
    while p < s.len()
        invariant
            p <= s.len(),
            s@ == text@,
            spec_parse_hints(s@) == prepend_hints(out.deep_view(), spec_parse_hints(s@.skip(p as int))),
        decreases s.len() - p,
    {
        let a = skip_field(&s, p);
        if a >= s.len() || s[a] != ';' {
            proof {
                lemma_parse_hints_step(s@, p as int);
            }
            return None;
        }
        let b = skip_field(&s, a + 1);
        if b >= s.len() || s[b] != ';' {
            proof {
                lemma_parse_hints_step(s@, p as int);
            }
            return None;
        }
        let c = skip_field(&s, b + 1);
        if c >= s.len() || s[c] != ';' {
            proof {
                lemma_parse_hints_step(s@, p as int);
            }
            return None;
        }
        let d = skip_field(&s, c + 1);
        if d >= s.len() || s[d] != '\n' {
            proof {
                lemma_parse_hints_step(s@, p as int);
            }
            return None;
        }
        let entry = SpoilerEntry {
            location: string_of(&s, p, a),
            item: string_of(&s, a + 1, b),
            sender: string_of(&s, b + 1, c),
            receiver: string_of(&s, c + 1, d),
        };
        proof {
            lemma_parse_hints_step(s@, p as int);
        }
        let ghost old_out = out.deep_view();
        let ghost ev = entry@;
        out.push(entry);
        assert(out.deep_view() =~= old_out.push(ev));
        assert(old_out + (seq![ev] + Seq::<EntryView>::empty()) =~= out.deep_view());
        proof {
            if let Some(rest) = spec_parse_hints(s@.skip(d + 1)) {
                assert(old_out + (seq![ev] + rest) =~= out.deep_view() + rest);
            }
        }
        p = d + 1;
    }
    assert(s@.skip(p as int) =~= Seq::<char>::empty());
    proof {
        reveal(spec_parse_hints);
    }
    assert(out.deep_view() + Seq::<EntryView>::empty() =~= out.deep_view());
    Some(out)
}

/// A storable field followed by a separator is read up to the separator.
proof fn lemma_field_then(x: Seq<char>, sep: char, rest: Seq<char>)
    requires
        storable_field(x),
        !is_field_char(sep),
    ensures
        run_end(x + seq![sep] + rest, 0, field_pred()) == x.len(),
        (x + seq![sep] + rest)[x.len() as int] == sep,
        (x + seq![sep] + rest).subrange(0, x.len() as int) == x,
        (x + seq![sep] + rest).skip(x.len() as int + 1) == rest,
{
    let s = x + seq![sep] + rest;
    assert forall|k: int| 0 <= k < x.len() implies field_pred()(#[trigger] s[k]) by {
        assert(s[k] == x[k]);
    }
    lemma_run_end_at(s, 0, x.len() as int, field_pred());
    assert(s.subrange(0, x.len() as int) =~= x);
    assert(s.skip(x.len() as int + 1) =~= rest);
}

/// The line of a storable hint, followed by more text, reads as that hint.
#[verifier::rlimit(80)]
proof fn lemma_line_parse(e: EntryView, t: Seq<char>)
    requires
        storable(e),
    ensures
        spec_line_at(hint_line(e) + t, 0) == Some((e, hint_line(e).len() as int)),
{
    let s = hint_line(e) + t;
    let s1 = e.item + seq![';'] + (e.sender + seq![';'] + (e.receiver + seq!['\n'] + t));
    let s2 = e.sender + seq![';'] + (e.receiver + seq!['\n'] + t);
    let s3 = e.receiver + seq!['\n'] + t;
    assert(s =~= e.location + seq![';'] + s1);
    lemma_field_then(e.location, ';', s1);
    lemma_field_then(e.item, ';', s2);
    lemma_field_then(e.sender, ';', s3);
    lemma_field_then(e.receiver, '\n', t);
    let a = e.location.len() as int;
    let b = a + 1 + e.item.len();
    let c = b + 1 + e.sender.len();
    let d = c + 1 + e.receiver.len();
    assert(s.skip(a + 1) == s1);
    lemma_run_end_skip(s, a + 1, 0, field_pred());
    assert(s1.skip(e.item.len() as int + 1) =~= s.skip(b + 1));
    lemma_run_end_skip(s, b + 1, 0, field_pred());
    assert(s2.skip(e.sender.len() as int + 1) =~= s.skip(c + 1));
    lemma_run_end_skip(s, c + 1, 0, field_pred());
    assert(s[b] == s1[b - a - 1]);
    assert(s[c] == s2[c - b - 1]);
    assert(s[d] == s3[d - c - 1]);
    assert(s.subrange(a + 1, b) =~= s1.subrange(0, e.item.len() as int));
    assert(s.subrange(b + 1, c) =~= s2.subrange(0, e.sender.len() as int));
    assert(s.subrange(c + 1, d) =~= s3.subrange(0, e.receiver.len() as int));
    assert(hint_line(e).len() == d + 1);
}

/// A hint file reads back the hints written to it: the text that stores a
/// sequence of storable hints reads as exactly that sequence.
pub proof fn lemma_hints_roundtrip(hints: Seq<EntryView>)
    requires
        forall|i: int| 0 <= i < hints.len() ==> storable(#[trigger] hints[i]),
    ensures
        spec_parse_hints(hints_text(hints)) == Some(hints),
    decreases hints.len(),
{
    reveal(spec_parse_hints);
    if hints.len() == 0 {
        return;
    }
    let e = hints[0];
    let rest = hints.drop_first();
    assert forall|i: int| 0 <= i < rest.len() implies storable(#[trigger] rest[i]) by {
        assert(rest[i] == hints[i + 1]);
    }
    lemma_hints_roundtrip(rest);
    let t = hints_text(rest);
    lemma_line_parse(e, t);
    let s = hint_line(e) + t;
    assert(s.skip(hint_line(e).len() as int) =~= t);
    assert(seq![e] + rest =~= hints);
}

/// A hint file reads only as what writing its hints gives: when the text reads
/// as a sequence of hints, those hints are storable and writing them gives the
/// text back.
pub proof fn lemma_parse_hints_sound(s: Seq<char>)
    ensures
        spec_parse_hints(s) matches Some(hints) ==> hints_text(hints) == s && forall|i: int|
            0 <= i < hints.len() ==> storable(#[trigger] hints[i]),
    decreases s.len(),
{
    reveal(spec_parse_hints);
    if s.len() == 0 {
        return;
    }
    lemma_line_at_bounds(s, 0);
    lemma_line_at_sound(s, 0);
    if let Some((e, n)) = spec_line_at(s, 0) {
        let tail = s.skip(n);
        lemma_parse_hints_sound(tail);
        if let Some(rest) = spec_parse_hints(tail) {
            let hints = seq![e] + rest;
            assert(hints[0] == e);
            assert(hints.drop_first() =~= rest);
            assert(s.subrange(0, n) + tail =~= s);
            assert forall|i: int| 0 <= i < hints.len() implies storable(#[trigger] hints[i]) by {
                if i > 0 {
                    assert(hints[i] == rest[i - 1]);
                }
            }
        }
    }
}

} // verus!
