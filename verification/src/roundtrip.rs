//! Reading back what was rendered: on which entries the markdown format
//! round-trips, and the proof that it does.
use vstd::prelude::*;
use crate::entry::{AlternativeView, EntryView};
use crate::markdown::{
    apply_line, fold_lines, last_cost, field_value, alternative_of,
};
use crate::text::{
    contains, ends_with, find, find_from, is_ws, join_lines, header_pos, occurs_at, single_line,
    starts_with, strip_prefix_all, trim, trim_end, trim_start, trim_char, trim_end_char,
    trim_start_char, lemma_find_from_skip,
};

verus! {

// ---------------------------------------------------------------------
// Text facts
// ---------------------------------------------------------------------

/// `s` begins with `x`, which differs from `label` at `k`: `s` does not
/// begin with `label`.
proof fn lemma_differs(s: Seq<char>, x: Seq<char>, label: Seq<char>, k: int)
    requires
        starts_with(s, x),
        0 <= k < x.len(),
        k < label.len(),
        x[k] != label[k],
    ensures
        !starts_with(s, label),
{
    assert(s.subrange(0, x.len() as int)[k] == s[k]);
    if starts_with(s, label) {
        assert(s.subrange(0, label.len() as int)[k] == s[k]);
    }
}

/// A text begins with what it was built from.
proof fn lemma_starts_concat(p: Seq<char>, x: Seq<char>)
    ensures
        starts_with(p + x, p),
{
    assert((p + x).subrange(0, p.len() as int) =~= p);
}

/// Trimming what begins with a character that is not whitespace only trims
/// its end.
proof fn lemma_trim_start_fixed(s: Seq<char>)
    requires
        s.len() > 0,
        !is_ws(s[0]),
    ensures
        trim_start(s) == s,
{
}

/// Trimming the end of `p + x` keeps `p` when `p` ends with a character
/// that is not whitespace.
proof fn lemma_trim_end_keeps(p: Seq<char>, x: Seq<char>)
    requires
        p.len() > 0,
        !is_ws(p.last()),
    ensures
        starts_with(trim_end(p + x), p),
        trim_end(p + x) == p + trim_end(x),
    decreases x.len(),
{
    if x.len() > 0 && is_ws(x.last()) {
        assert((p + x).drop_last() =~= p + x.drop_last());
        assert((p + x).last() == x.last());
        lemma_trim_end_keeps(p, x.drop_last());
    } else if x.len() > 0 {
        assert((p + x).last() == x.last());
        lemma_starts_concat(p, x);
    } else {
        assert(p + x =~= p);
        assert((p + x).last() == p.last());
        lemma_starts_concat(p, x);
    }
}

/// A text whose first and last characters are not whitespace is trimmed.
proof fn lemma_trim_fixed(s: Seq<char>)
    requires
        s.len() > 0,
        !is_ws(s[0]),
        !is_ws(s.last()),
    ensures
        trim(s) == s,
{
}

/// The trimmed `p + x`, where `p` has no whitespace at its ends.
proof fn lemma_trim_labeled(p: Seq<char>, x: Seq<char>)
    requires
        p.len() > 0,
        !is_ws(p[0]),
        !is_ws(p.last()),
    ensures
        trim(p + x) == p + trim_end(x),
        starts_with(trim(p + x), p),
{
    assert((p + x)[0] == p[0]);
    lemma_trim_start_fixed(p + x);
    lemma_trim_end_keeps(p, x);
}

/// A text with no whitespace at its ends, after a space: trimming gives it
/// back.
proof fn lemma_trim_space_plain(v: Seq<char>)
    requires
        trim(v) == v,
    ensures
        trim(seq![' '] + v) == v,
{
    assert((seq![' '] + v).drop_first() =~= v);
    assert(is_ws(' '));
}

/// The value of a labeled line `p`, a space and a plain `v`.
proof fn lemma_field_line(p: Seq<char>, v: Seq<char>)
    requires
        p.len() > 0,
        !is_ws(p[0]),
        !is_ws(p.last()),
        trim(v) == v,
    ensures
        starts_with(trim(p + seq![' '] + v), p),
        field_value(trim(p + seq![' '] + v), p) == v,
{
    let x = seq![' '] + v;
    assert(p + seq![' '] + v =~= p + x);
    lemma_trim_labeled(p, x);
    let t = trim(p + x);
    let tx = trim_end(x);
    assert(t == p + tx);
    assert(t.subrange(p.len() as int, t.len() as int) =~= tx);
    if v.len() > 0 {
        lemma_plain_ends(v);
        assert(x.last() == v.last());
        assert(tx == x);
        assert(tx[0] == ' ');
        if starts_with(tx, p) {
            assert(tx.subrange(0, p.len() as int)[0] == tx[0]);
        }
        assert(strip_prefix_all(tx, p) == tx);
        assert(strip_prefix_all(t, p) == tx);
        lemma_trim_space_plain(v);
    } else {
        assert(x =~= seq![' ']);
        assert(x.drop_last().len() == 0);
        assert(x.last() == ' ');
        assert(is_ws(' '));
        assert(trim_end(x.drop_last()).len() == 0);
        assert(tx.len() == 0);
        assert(t =~= p);
        assert(p.subrange(p.len() as int, p.len() as int).len() == 0);
        assert(strip_prefix_all(tx, p) == tx);
        assert(strip_prefix_all(t, p) == strip_prefix_all(t.subrange(p.len() as int, t.len() as int), p));
        assert(trim(tx) =~= v);
    }
}

/// Trimming the start keeps the end.
proof fn lemma_trim_start_suffix(x: Seq<char>)
    ensures
        trim_start(x).len() <= x.len(),
        trim_start(x) == x.subrange(x.len() - trim_start(x).len(), x.len() as int),
    decreases x.len(),
{
    if x.len() > 0 && is_ws(x[0]) {
        lemma_trim_start_suffix(x.drop_first());
        assert(x.drop_first().subrange(
            x.drop_first().len() - trim_start(x.drop_first()).len(),
            x.drop_first().len() as int,
        ) =~= x.subrange(x.len() - trim_start(x).len(), x.len() as int));
    } else {
        assert(x.subrange(0, x.len() as int) =~= x);
    }
}

/// Trimming the end keeps the beginning.
proof fn lemma_trim_end_prefix(x: Seq<char>)
    ensures
        trim_end(x).len() <= x.len(),
        trim_end(x) == x.subrange(0, trim_end(x).len() as int),
    decreases x.len(),
{
    if x.len() > 0 && is_ws(x.last()) {
        lemma_trim_end_prefix(x.drop_last());
        assert(x.drop_last().subrange(0, trim_end(x).len() as int) =~= x.subrange(
            0,
            trim_end(x).len() as int,
        ));
    } else {
        assert(x.subrange(0, x.len() as int) =~= x);
    }
}

/// A non-empty text equal to its trimmed self has no whitespace at its ends.
proof fn lemma_plain_ends(v: Seq<char>)
    requires
        trim(v) == v,
        v.len() > 0,
    ensures
        !is_ws(v[0]),
        !is_ws(v.last()),
{
    lemma_trim_start_suffix(v);
    lemma_trim_end_prefix(trim_start(v));
    if is_ws(v[0]) {
        lemma_trim_start_suffix(v.drop_first());
        assert(false);
    }
    let ts = trim_start(v);
    if is_ws(v.last()) {
        assert(ts.len() == v.len());
        assert(ts =~= v);
        lemma_trim_end_prefix(v.drop_last());
        assert(false);
    }
}

/// An occurrence makes `p` contained.
proof fn lemma_occurs_contains(s: Seq<char>, p: Seq<char>, i: int)
    requires
        occurs_at(s, p, i),
    ensures
        contains(s, p),
{
    lemma_find_from_some_upto(s, p, 0, i);
}

proof fn lemma_find_from_some_upto(s: Seq<char>, p: Seq<char>, j: int, i: int)
    requires
        0 <= j <= i,
        occurs_at(s, p, i),
    ensures
        find_from(s, p, j) is Some,
    decreases i - j,
{
    if j < i && !occurs_at(s, p, j) {
        lemma_find_from_some_upto(s, p, j + 1, i);
    }
}

/// A text without the first character of `p` does not contain `p`.
proof fn lemma_absent_first(s: Seq<char>, p: Seq<char>, j: int)
    requires
        p.len() > 0,
        0 <= j,
        forall|i: int| 0 <= i < s.len() ==> s[i] != p[0],
    ensures
        find_from(s, p, j) is None,
    decreases s.len() + 1 - j,
{
    if !(j + p.len() > s.len()) {
        assert(s.subrange(j, j + p.len())[0] == s[j]);
        lemma_absent_first(s, p, j + 1);
    }
}

// ---------------------------------------------------------------------
// Folding lines
// ---------------------------------------------------------------------

proof fn lemma_fold_append(e: EntryView, a: Seq<Seq<char>>, b: Seq<Seq<char>>)
    ensures
        fold_lines(e, a + b) == fold_lines(fold_lines(e, a), b),
    decreases a.len(),
{
    if a.len() == 0 {
        assert(a + b =~= b);
    } else {
        assert((a + b).drop_first() =~= a.drop_first() + b);
        assert((a + b)[0] == a[0]);
        lemma_fold_append(apply_line(e, a[0]), a.drop_first(), b);
    }
}

proof fn lemma_last_cost_append(
    a: Seq<Seq<char>>,
    b: Seq<Seq<char>>,
    current: Option<Seq<char>>,
)
    ensures
        last_cost(a + b, current) == last_cost(b, last_cost(a, current)),
    decreases a.len(),
{
    if a.len() == 0 {
        assert(a + b =~= b);
    } else {
        assert((a + b).drop_first() =~= a.drop_first() + b);
        assert((a + b)[0] == a[0]);
        let line = trim(a[0]);
        let next = if starts_with(line, "**Conservation Cost:**"@) {
            Some(field_value(line, "**Conservation Cost:**"@))
        } else {
            current
        };
        lemma_last_cost_append(a.drop_first(), b, next);
    }
}

// ---------------------------------------------------------------------
// Headings
// ---------------------------------------------------------------------

/// No line of `ls` ends with `h` and is followed by an empty line.
spec fn header_free(ls: Seq<Seq<char>>, h: Seq<char>) -> bool
    decreases ls.len(),
{
    ls.len() < 2 || (!(ends_with(ls[0], h) && ls[1].len() == 0) && header_free(
        ls.drop_first(),
        h,
    ))
}

proof fn lemma_header_free_append(a: Seq<Seq<char>>, b: Seq<Seq<char>>, h: Seq<char>)
    requires
        b.len() > 0,
        header_free(a.push(b[0]), h),
        header_free(b, h),
    ensures
        header_free(a + b, h),
    decreases a.len(),
{
    if a.len() > 0 {
        assert((a + b).drop_first() =~= a.drop_first() + b);
        assert(a.push(b[0]).drop_first() =~= a.drop_first().push(b[0]));
        if a.len() == 1 {
            assert(a.drop_first() + b =~= b);
            assert((a + b)[1] == b[0]);
        } else {
            assert((a + b)[1] == a[1]);
            assert(a.push(b[0])[1] == a[1]);
        }
        assert((a + b)[0] == a[0]);
        lemma_header_free_append(a.drop_first(), b, h);
    } else {
        assert(a + b =~= b);
    }
}

proof fn lemma_header_pos_append(a: Seq<Seq<char>>, b: Seq<Seq<char>>, h: Seq<char>)
    requires
        b.len() > 0,
        header_free(a.push(b[0]), h),
    ensures
        header_pos(a + b, h) == (match header_pos(b, h) {
            Some(k) => Some(k + join_lines(a).len()),
            None => None,
        }),
    decreases a.len(),
{
    if a.len() == 0 {
        assert(a + b =~= b);
        assert(join_lines(a).len() == 0);
    } else {
        assert((a + b).drop_first() =~= a.drop_first() + b);
        assert(a.push(b[0]).drop_first() =~= a.drop_first().push(b[0]));
        assert((a + b)[0] == a[0]);
        if a.len() == 1 {
            assert((a + b)[1] == b[0]);
            assert(a.push(b[0])[1] == b[0]);
        } else {
            assert((a + b)[1] == a[1]);
            assert(a.push(b[0])[1] == a[1]);
        }
        lemma_header_pos_append(a.drop_first(), b, h);
    }
}

proof fn lemma_header_pos_none(ls: Seq<Seq<char>>, h: Seq<char>)
    requires
        header_free(ls, h),
    ensures
        header_pos(ls, h) is None,
    decreases ls.len(),
{
    if ls.len() >= 2 {
        lemma_header_pos_none(ls.drop_first(), h);
    } else if ls.len() == 1 {
        assert(ls.drop_first().len() == 0);
        assert(header_pos(ls.drop_first(), h) is None);
    }
}


// ---------------------------------------------------------------------
// What each rendered line does when read
// ---------------------------------------------------------------------

/// `l` begins with none of the labels that the reader recognizes.
pub open spec fn unlabeled(l: Seq<char>) -> bool {
    &&& !starts_with(l, "# Provenance:"@)
    &&& !starts_with(l, "**Intent:**"@)
    &&& !starts_with(l, "**Model:**"@)
    &&& !starts_with(l, "**Commit:**"@)
    &&& !starts_with(l, "**Room:**"@)
    &&& !starts_with(l, "- [✓]"@)
    &&& !starts_with(l, "- [ ]"@)
    &&& !starts_with(l, "**Tests Passed:**"@)
    &&& !starts_with(l, "**Agent Host:**"@)
    &&& !starts_with(l, "**Conservation Cost:**"@)
}

/// A line whose trimmed text is unlabeled changes nothing.
proof fn lemma_apply_unlabeled(e: EntryView, raw: Seq<char>)
    requires
        unlabeled(trim(raw)),
    ensures
        apply_line(e, raw) == e,
{
}

/// Empty text carries no label.
proof fn lemma_unlabeled_empty()
    ensures
        unlabeled(Seq::<char>::empty()),
{
    reveal_strlit("# Provenance:");
    reveal_strlit("**Intent:**");
    reveal_strlit("**Model:**");
    reveal_strlit("**Commit:**");
    reveal_strlit("**Room:**");
    reveal_strlit("- [✓]");
    reveal_strlit("- [ ]");
    reveal_strlit("**Tests Passed:**");
    reveal_strlit("**Conservation Cost:**");
    reveal_strlit("**Agent Host:**");
}

/// Text beginning with `##` carries no label.
proof fn lemma_unlabeled_hashes(s: Seq<char>)
    requires
        starts_with(s, seq!['#', '#']),
    ensures
        unlabeled(s),
{
    reveal_strlit("# Provenance:");
    reveal_strlit("**Intent:**");
    reveal_strlit("**Model:**");
    reveal_strlit("**Commit:**");
    reveal_strlit("**Room:**");
    reveal_strlit("- [✓]");
    reveal_strlit("- [ ]");
    reveal_strlit("**Tests Passed:**");
    reveal_strlit("**Conservation Cost:**");
    let x = seq!['#', '#'];
    lemma_differs(s, x, "# Provenance:"@, 1);
    lemma_differs(s, x, "**Intent:**"@, 0);
    lemma_differs(s, x, "**Model:**"@, 0);
    lemma_differs(s, x, "**Commit:**"@, 0);
    lemma_differs(s, x, "**Room:**"@, 0);
    lemma_differs(s, x, "- [✓]"@, 0);
    lemma_differs(s, x, "- [ ]"@, 0);
    lemma_differs(s, x, "**Tests Passed:**"@, 0);
    lemma_differs(s, x, "**Conservation Cost:**"@, 0);
    reveal_strlit("**Agent Host:**");
    lemma_differs(s, x, "**Agent Host:**"@, 0);
}

/// Text beginning with ``- ` `` carries no label.
proof fn lemma_unlabeled_file(s: Seq<char>)
    requires
        starts_with(s, seq!['-', ' ', '`']),
    ensures
        unlabeled(s),
{
    reveal_strlit("# Provenance:");
    reveal_strlit("**Intent:**");
    reveal_strlit("**Model:**");
    reveal_strlit("**Commit:**");
    reveal_strlit("**Room:**");
    reveal_strlit("- [✓]");
    reveal_strlit("- [ ]");
    reveal_strlit("**Tests Passed:**");
    reveal_strlit("**Conservation Cost:**");
    let x = seq!['-', ' ', '`'];
    lemma_differs(s, x, "# Provenance:"@, 0);
    lemma_differs(s, x, "**Intent:**"@, 0);
    lemma_differs(s, x, "**Model:**"@, 0);
    lemma_differs(s, x, "**Commit:**"@, 0);
    lemma_differs(s, x, "**Room:**"@, 0);
    lemma_differs(s, x, "- [✓]"@, 2);
    lemma_differs(s, x, "- [ ]"@, 2);
    lemma_differs(s, x, "**Tests Passed:**"@, 0);
    lemma_differs(s, x, "**Conservation Cost:**"@, 0);
    reveal_strlit("**Agent Host:**");
    lemma_differs(s, x, "**Agent Host:**"@, 0);
}

/// The identifier line sets the identifier.
proof fn lemma_apply_id(e: EntryView, id: Seq<char>)
    requires
        trim(id) == id,
    ensures
        apply_line(e, "# Provenance: "@ + id) == (EntryView { id, ..e }),
        !starts_with(trim("# Provenance: "@ + id), "**Conservation Cost:**"@),
{
    reveal_strlit("# Provenance: ");
    reveal_strlit("# Provenance:");
    reveal_strlit("**Conservation Cost:**");
    assert("# Provenance: "@ =~= "# Provenance:"@ + seq![' ']);
    lemma_field_line("# Provenance:"@, id);
    let t = trim("# Provenance:"@ + seq![' '] + id);
    lemma_differs(t, "# Provenance:"@, "**Conservation Cost:**"@, 0);
}

/// The intent line sets the intent.
proof fn lemma_apply_intent(e: EntryView, v: Seq<char>)
    requires
        trim(v) == v,
    ensures
        apply_line(e, "**Intent:** "@ + v) == (EntryView { intent: v, ..e }),
        !starts_with(trim("**Intent:** "@ + v), "**Conservation Cost:**"@),
{
    reveal_strlit("# Provenance:");
    reveal_strlit("**Intent:**");
    reveal_strlit("**Model:**");
    reveal_strlit("**Commit:**");
    reveal_strlit("**Room:**");
    reveal_strlit("- [✓]");
    reveal_strlit("- [ ]");
    reveal_strlit("**Tests Passed:**");
    reveal_strlit("**Conservation Cost:**");
    reveal_strlit("**Intent:** ");
    let p = "**Intent:**"@;
    assert("**Intent:** "@ =~= p + seq![' ']);
    lemma_field_line(p, v);
    let t = trim(p + seq![' '] + v);
    lemma_differs(t, p, "# Provenance:"@, 0);
    lemma_differs(t, p, "**Conservation Cost:**"@, 2);
}

/// The model line sets the model.
proof fn lemma_apply_model(e: EntryView, v: Seq<char>)
    requires
        trim(v) == v,
    ensures
        apply_line(e, "**Model:** "@ + v) == (EntryView { model_used: v, ..e }),
        !starts_with(trim("**Model:** "@ + v), "**Conservation Cost:**"@),
{
    reveal_strlit("# Provenance:");
    reveal_strlit("**Intent:**");
    reveal_strlit("**Model:**");
    reveal_strlit("**Commit:**");
    reveal_strlit("**Room:**");
    reveal_strlit("- [✓]");
    reveal_strlit("- [ ]");
    reveal_strlit("**Tests Passed:**");
    reveal_strlit("**Conservation Cost:**");
    reveal_strlit("**Model:** ");
    let p = "**Model:**"@;
    assert("**Model:** "@ =~= p + seq![' ']);
    lemma_field_line(p, v);
    let t = trim(p + seq![' '] + v);
    lemma_differs(t, p, "# Provenance:"@, 0);
    lemma_differs(t, p, "**Intent:**"@, 2);
    lemma_differs(t, p, "**Conservation Cost:**"@, 2);
}

/// The room line sets the room.
proof fn lemma_apply_room(e: EntryView, v: Seq<char>)
    requires
        trim(v) == v,
    ensures
        apply_line(e, "**Room:** "@ + v) == (EntryView { room_id: Some(v), ..e }),
        !starts_with(trim("**Room:** "@ + v), "**Conservation Cost:**"@),
{
    reveal_strlit("# Provenance:");
    reveal_strlit("**Intent:**");
    reveal_strlit("**Model:**");
    reveal_strlit("**Commit:**");
    reveal_strlit("**Room:**");
    reveal_strlit("- [✓]");
    reveal_strlit("- [ ]");
    reveal_strlit("**Tests Passed:**");
    reveal_strlit("**Conservation Cost:**");
    reveal_strlit("**Room:** ");
    let p = "**Room:**"@;
    assert("**Room:** "@ =~= p + seq![' ']);
    lemma_field_line(p, v);
    let t = trim(p + seq![' '] + v);
    lemma_differs(t, p, "# Provenance:"@, 0);
    lemma_differs(t, p, "**Intent:**"@, 2);
    lemma_differs(t, p, "**Model:**"@, 2);
    lemma_differs(t, p, "**Commit:**"@, 2);
    lemma_differs(t, p, "**Conservation Cost:**"@, 2);
}

/// The host line sets the agent host.
proof fn lemma_apply_host(e: EntryView, v: Seq<char>)
    requires
        trim(v) == v,
    ensures
        apply_line(e, "**Agent Host:** "@ + v) == (EntryView { agent_host: v, ..e }),
        !starts_with(trim("**Agent Host:** "@ + v), "**Conservation Cost:**"@),
{
    reveal_strlit("# Provenance:");
    reveal_strlit("**Intent:**");
    reveal_strlit("**Model:**");
    reveal_strlit("**Commit:**");
    reveal_strlit("**Room:**");
    reveal_strlit("- [✓]");
    reveal_strlit("- [ ]");
    reveal_strlit("**Tests Passed:**");
    reveal_strlit("**Conservation Cost:**");
    reveal_strlit("**Agent Host:**");
    reveal_strlit("**Agent Host:** ");
    let p = "**Agent Host:**"@;
    assert("**Agent Host:** "@ =~= p + seq![' ']);
    lemma_field_line(p, v);
    let t = trim(p + seq![' '] + v);
    lemma_differs(t, p, "# Provenance:"@, 0);
    lemma_differs(t, p, "**Intent:**"@, 2);
    lemma_differs(t, p, "**Model:**"@, 2);
    lemma_differs(t, p, "**Commit:**"@, 2);
    lemma_differs(t, p, "**Room:**"@, 2);
    lemma_differs(t, p, "- [✓]"@, 0);
    lemma_differs(t, p, "- [ ]"@, 0);
    lemma_differs(t, p, "**Tests Passed:**"@, 2);
    lemma_differs(t, p, "**Conservation Cost:**"@, 2);
}

/// The cost line changes nothing in the entry.
proof fn lemma_apply_cost(e: EntryView, v: Seq<char>)
    ensures
        apply_line(e, "**Conservation Cost:** "@ + v) == e,
        starts_with(trim("**Conservation Cost:** "@ + v), "**Conservation Cost:**"@),
        trim(v) == v ==> field_value(trim("**Conservation Cost:** "@ + v), "**Conservation Cost:**"@) == v,
{
    reveal_strlit("# Provenance:");
    reveal_strlit("**Intent:**");
    reveal_strlit("**Model:**");
    reveal_strlit("**Commit:**");
    reveal_strlit("**Room:**");
    reveal_strlit("- [✓]");
    reveal_strlit("- [ ]");
    reveal_strlit("**Tests Passed:**");
    reveal_strlit("**Conservation Cost:**");
    reveal_strlit("**Conservation Cost:** ");
    let p = "**Conservation Cost:**"@;
    assert("**Conservation Cost:** "@ =~= p + seq![' ']);
    assert("**Conservation Cost:** "@ + v =~= p + (seq![' '] + v));
    lemma_trim_labeled(p, seq![' '] + v);
    let t = trim(p + (seq![' '] + v));
    lemma_differs(t, p, "# Provenance:"@, 0);
    lemma_differs(t, p, "**Intent:**"@, 2);
    lemma_differs(t, p, "**Model:**"@, 2);
    lemma_differs(t, p, "**Commit:**"@, 4);
    lemma_differs(t, p, "**Room:**"@, 2);
    lemma_differs(t, p, "- [✓]"@, 0);
    lemma_differs(t, p, "- [ ]"@, 0);
    lemma_differs(t, p, "**Tests Passed:**"@, 2);
    reveal_strlit("**Agent Host:**");
    lemma_differs(t, p, "**Agent Host:**"@, 2);
    if trim(v) == v {
        assert(p + seq![' '] + v =~= p + (seq![' '] + v));
        lemma_field_line(p, v);
    }
}


/// Removing a character `c` around a text that neither begins nor ends with
/// `c`.
proof fn lemma_trim_char_wrapped(v: Seq<char>, c: char, k: nat)
    requires
        v.len() == 0 || (v[0] != c && v.last() != c),
    ensures
        trim_start_char(Seq::new(k, |i: int| c) + v, c) == (if v.len() == 0 {
            Seq::<char>::empty()
        } else {
            v
        }),
        trim_end_char(v + Seq::new(k, |i: int| c), c) == (if v.len() == 0 {
            Seq::<char>::empty()
        } else {
            v
        }),
    decreases k,
{
    let w = Seq::new(k, |i: int| c);
    if k > 0 {
        let w1 = Seq::new((k - 1) as nat, |i: int| c);
        assert((w + v).drop_first() =~= w1 + v);
        assert((v + w).drop_last() =~= v + w1);
        assert((w + v)[0] == c);
        assert((v + w).last() == c);
        lemma_trim_char_wrapped(v, c, (k - 1) as nat);
    } else {
        assert(w + v =~= v);
        assert(v + w =~= v);
        if v.len() == 0 {
            assert(v =~= Seq::<char>::empty());
        }
    }
}

/// Removing `c` around `c v c` gives `v`.
proof fn lemma_trim_char_around(v: Seq<char>, c: char, k: nat)
    requires
        v.len() == 0 || (v[0] != c && v.last() != c),
    ensures
        trim_char(Seq::new(k, |i: int| c) + v + Seq::new(k, |i: int| c), c) == v,
{
    let w = Seq::new(k, |i: int| c);
    lemma_trim_char_wrapped(v, c, k);
    if v.len() == 0 {
        assert(w + v + w =~= w + w);
        assert(Seq::new(k, |i: int| c) + w =~= Seq::new(k + k, |i: int| c));
        let ww = Seq::new((k + k) as nat, |i: int| c);
        lemma_trim_char_wrapped(Seq::<char>::empty(), c, (k + k) as nat);
        assert(ww + Seq::<char>::empty() =~= w + w);
        assert(v =~= Seq::<char>::empty());
    } else {
        assert(w + v + w =~= w + (v + w));
        lemma_trim_start_char_prefix(w, v + w, c, k);
    }
}

proof fn lemma_trim_start_char_prefix(w: Seq<char>, x: Seq<char>, c: char, k: nat)
    requires
        w == Seq::new(k, |i: int| c),
        x.len() > 0,
        x[0] != c,
    ensures
        trim_start_char(w + x, c) == x,
    decreases k,
{
    if k > 0 {
        let w1 = Seq::new((k - 1) as nat, |i: int| c);
        assert((w + x).drop_first() =~= w1 + x);
        assert((w + x)[0] == c);
        lemma_trim_start_char_prefix(w1, x, c, (k - 1) as nat);
    } else {
        assert(w + x =~= x);
    }
}

/// The commit line sets the commit.
proof fn lemma_apply_commit(e: EntryView, sha: Seq<char>)
    requires
        sha.len() == 0 || (sha[0] != '`' && sha.last() != '`'),
    ensures
        apply_line(e, "**Commit:** `"@ + sha + "`"@) == (EntryView { commit_sha: Some(sha), ..e }),
        !starts_with(trim("**Commit:** `"@ + sha + "`"@), "**Conservation Cost:**"@),
{
    reveal_strlit("# Provenance:");
    reveal_strlit("**Intent:**");
    reveal_strlit("**Model:**");
    reveal_strlit("**Commit:**");
    reveal_strlit("**Room:**");
    reveal_strlit("- [✓]");
    reveal_strlit("- [ ]");
    reveal_strlit("**Tests Passed:**");
    reveal_strlit("**Conservation Cost:**");
    reveal_strlit("**Commit:** `");
    reveal_strlit("`");
    let p = "**Commit:**"@;
    let tick = Seq::new(1, |i: int| '`');
    let v = tick + sha + tick;
    assert("**Commit:** `"@ + sha + "`"@ =~= p + seq![' '] + v);
    assert(v[0] == '`');
    assert(v.last() == '`');
    lemma_trim_fixed(v);
    lemma_field_line(p, v);
    let t = trim(p + seq![' '] + v);
    lemma_differs(t, p, "# Provenance:"@, 0);
    lemma_differs(t, p, "**Intent:**"@, 2);
    lemma_differs(t, p, "**Model:**"@, 2);
    lemma_differs(t, p, "**Conservation Cost:**"@, 4);
    lemma_trim_char_around(sha, '`', 1);
}

/// The tests line sets whether tests passed.
proof fn lemma_apply_tests(e: EntryView, passed: bool)
    ensures
        apply_line(e, "**Tests Passed:** "@ + (if passed { "Yes"@ } else { "No"@ }))
            == (EntryView { tests_passed: passed, ..e }),
        !starts_with(
            trim("**Tests Passed:** "@ + (if passed { "Yes"@ } else { "No"@ })),
            "**Conservation Cost:**"@,
        ),
{
    reveal_strlit("# Provenance:");
    reveal_strlit("**Intent:**");
    reveal_strlit("**Model:**");
    reveal_strlit("**Commit:**");
    reveal_strlit("**Room:**");
    reveal_strlit("- [✓]");
    reveal_strlit("- [ ]");
    reveal_strlit("**Tests Passed:**");
    reveal_strlit("**Conservation Cost:**");
    reveal_strlit("**Tests Passed:** ");
    reveal_strlit("Yes");
    reveal_strlit("No");
    let p = "**Tests Passed:**"@;
    let word = if passed { "Yes"@ } else { "No"@ };
    let x = seq![' '] + word;
    assert("**Tests Passed:** "@ + word =~= p + x);
    lemma_trim_labeled(p, x);
    assert(x.last() != ' ');
    assert(trim_end(x) == x);
    let t = trim(p + x);
    assert(t == p + x);
    lemma_differs(t, p, "# Provenance:"@, 0);
    lemma_differs(t, p, "**Intent:**"@, 2);
    lemma_differs(t, p, "**Model:**"@, 2);
    lemma_differs(t, p, "**Commit:**"@, 2);
    lemma_differs(t, p, "**Room:**"@, 2);
    lemma_differs(t, p, "- [✓]"@, 0);
    lemma_differs(t, p, "- [ ]"@, 0);
    lemma_differs(t, p, "**Conservation Cost:**"@, 2);
    if passed {
        assert(t.subrange(p.len() as int + 1, p.len() as int + 4) =~= "Yes"@);
        lemma_occurs_contains(t, "Yes"@, p.len() as int + 1);
    } else {
        assert forall|i: int| 0 <= i < t.len() implies t[i] != "Yes"@[0] by {
            if i < p.len() {
                assert(t[i] == p[i]);
            }
        }
        lemma_absent_first(t, "Yes"@, 0);
    }
}


/// An alternative that reads back as it was written: its name holds no
/// `": "` and neither begins nor ends with `*`; its reason, if any, does not
/// end with whitespace; both are single lines.
pub open spec fn alternative_round_trips(a: AlternativeView) -> bool {
    &&& single_line(a.name)
    &&& single_line(a.reason)
    &&& !contains(a.name, ": "@)
    &&& (a.name.len() == 0 || (a.name[0] != '*' && a.name.last() != '*'))
    &&& (a.reason.len() == 0 || !is_ws(a.reason.last()))
}

/// The check box that `alternative_line` writes, as the reader tests it.
pub open spec fn check_box(selected: bool) -> Seq<char> {
    if selected {
        "- [✓]"@
    } else {
        "- [ ]"@
    }
}

/// The text of an alternative line after its check box and space.
pub open spec fn alternative_body(a: AlternativeView) -> Seq<char> {
    seq!['*', '*'] + a.name + seq!['*', '*', ':', ' '] + a.reason
}

proof fn lemma_alternative_line_shape(a: AlternativeView)
    ensures
        crate::markdown::alternative_line(a) == check_box(a.selected) + seq![' '] + alternative_body(a),
{
    reveal_strlit("- [");
    reveal_strlit("✓");
    reveal_strlit(" ");
    reveal_strlit("] **");
    reveal_strlit("**: ");
    reveal_strlit("- [✓]");
    reveal_strlit("- [ ]");
    assert(crate::markdown::alternative_line(a) =~= check_box(a.selected) + seq![' ']
        + alternative_body(a));
}

/// The first `": "` of an alternative body follows the name.
proof fn lemma_body_colon(a: AlternativeView)
    requires
        !contains(a.name, ": "@),
    ensures
        find(alternative_body(a), ": "@) == Some(a.name.len() as int + 4),
{
    reveal_strlit(": ");
    let y = alternative_body(a);
    let n = a.name;
    let m: int = n.len() as int;
    let q = ": "@;
    assert(q =~= seq![':', ' ']);
    assert(y.len() == n.len() + 6 + a.reason.len());
    assert(forall|i: int| 0 <= i < n.len() ==> y[2 + i] == n[i]);
    assert(y[0] == '*' && y[1] == '*');
    assert(y[2 + m] == '*' && y[3 + m] == '*');
    assert(y[4 + m] == ':' && y[5 + m] == ' ');
    assert forall|j: int| 0 <= j < n.len() + 4 implies !occurs_at(y, q, j) by {
        if occurs_at(y, q, j) {
            assert(y.subrange(j, j + 2)[0] == y[j]);
            assert(y.subrange(j, j + 2)[1] == y[j + 1]);
            assert(y[j] == ':' && y[j + 1] == ' ');
            if 2 <= j && j + 1 < 2 + m {
                assert(n[j - 2] == ':' && n[j - 1] == ' ');
                assert(n.subrange(j - 2, j) =~= q);
                lemma_occurs_contains(n, q, j - 2);
            }
        }
    }
    lemma_find_from_skip(y, q, 0, m + 4);
    assert(y.subrange(m + 4, m + 6) =~= q);
}

/// An alternative body without its reason and the space before it holds
/// no `": "`.
proof fn lemma_body_no_colon(a: AlternativeView)
    requires
        !contains(a.name, ": "@),
        a.reason.len() == 0,
    ensures
        find(alternative_body(a).drop_last(), ": "@) is None,
{
    reveal_strlit(": ");
    let y = alternative_body(a).drop_last();
    let n = a.name;
    let m: int = n.len() as int;
    let q = ": "@;
    assert(q =~= seq![':', ' ']);
    assert(y.len() == n.len() + 5);
    assert(forall|i: int| 0 <= i < n.len() ==> y[2 + i] == n[i]);
    assert(y[0] == '*' && y[1] == '*');
    assert(y[2 + m] == '*' && y[3 + m] == '*');
    assert(y[4 + m] == ':');
    assert forall|j: int| 0 <= j < n.len() + 4 implies !occurs_at(y, q, j) by {
        if occurs_at(y, q, j) {
            assert(y.subrange(j, j + 2)[0] == y[j]);
            assert(y.subrange(j, j + 2)[1] == y[j + 1]);
            assert(y[j] == ':' && y[j + 1] == ' ');
            if 2 <= j && j + 1 < 2 + m {
                assert(n[j - 2] == ':' && n[j - 1] == ' ');
                assert(n.subrange(j - 2, j) =~= q);
                lemma_occurs_contains(n, q, j - 2);
            }
        }
    }
    lemma_find_from_skip(y, q, 0, m + 4);
}

/// An alternative line adds its alternative.
#[verifier::spinoff_prover]
#[verifier::rlimit(50)]
proof fn lemma_apply_alternative(e: EntryView, a: AlternativeView)
    requires
        alternative_round_trips(a),
    ensures
        apply_line(e, crate::markdown::alternative_line(a)) == (EntryView {
            alternatives: e.alternatives.push(a),
            ..e
        }),
        !starts_with(trim(crate::markdown::alternative_line(a)), "**Conservation Cost:**"@),
{
    reveal_strlit("# Provenance:");
    reveal_strlit("**Intent:**");
    reveal_strlit("**Model:**");
    reveal_strlit("**Commit:**");
    reveal_strlit("**Room:**");
    reveal_strlit("- [✓]");
    reveal_strlit("- [ ]");
    reveal_strlit("**Tests Passed:**");
    reveal_strlit("**Conservation Cost:**");
    lemma_alternative_line_shape(a);
    let bx = check_box(a.selected);
    let full = alternative_body(a);
    // The body as the trimmed line shows it: without the final space of an
    // empty reason.
    let y = if a.reason.len() == 0 { full.drop_last() } else { full };
    let x = seq![' '] + y;
    let line = bx + x;
    if a.reason.len() == 0 {
        assert(full =~= y.push(' '));
        assert(crate::markdown::alternative_line(a) =~= line.push(' '));
        assert(is_ws(' '));
        crate::text::lemma_trim_push_ws(line, ' ');
        assert(y.last() == ':');
    } else {
        assert(crate::markdown::alternative_line(a) =~= line);
        assert(y.last() == a.reason.last());
    }
    assert(line[0] == '-');
    assert(line.last() == y.last());
    lemma_trim_fixed(line);
    assert(trim(crate::markdown::alternative_line(a)) == line);
    lemma_starts_concat(bx, x);
    lemma_differs(line, bx, "# Provenance:"@, 0);
    lemma_differs(line, bx, "**Intent:**"@, 0);
    lemma_differs(line, bx, "**Model:**"@, 0);
    lemma_differs(line, bx, "**Commit:**"@, 0);
    lemma_differs(line, bx, "**Room:**"@, 0);
    lemma_differs(line, bx, "**Conservation Cost:**"@, 0);
    if !a.selected {
        lemma_differs(line, bx, "- [✓]"@, 3);
    }
    // Removing the check box leaves a space and the body.
    assert(line.subrange(bx.len() as int, line.len() as int) =~= x);
    lemma_starts_concat(seq![' '], y);
    lemma_differs(x, seq![' '], bx, 0);
    assert(strip_prefix_all(x, bx) == x);
    assert(strip_prefix_all(line, bx) == x);
    assert(x.drop_first() =~= y);
    assert(y[0] == '*');
    lemma_trim_fixed(y);
    assert(trim_start(x) == trim_start(y));
    assert(trim(x) == y);
    let n = a.name;
    let m: int = n.len() as int;
    let head = y.subrange(0, m + 4);
    let stars = Seq::new(2, |i: int| '*');
    assert(head =~= stars + n + stars);
    assert(head[0] == '*');
    assert(head.last() == '*');
    lemma_trim_fixed(head);
    lemma_trim_char_around(n, '*', 2);
    if a.reason.len() == 0 {
        lemma_body_no_colon(a);
        assert(y.drop_last() =~= head);
        assert(a.reason =~= Seq::<char>::empty());
    } else {
        lemma_body_colon(a);
        assert(y.subrange(m + 6, y.len() as int) =~= a.reason);
    }
    assert(crate::markdown::alternative_of(line) == Some(a));
}


// ---------------------------------------------------------------------
// The entries that round-trip
// ---------------------------------------------------------------------

/// A single line without whitespace at its ends.
pub open spec fn plain(v: Seq<char>) -> bool {
    single_line(v) && trim(v) == v
}

/// A commit that reads back as written: one line, no backtick at either end.
pub open spec fn commit_round_trips(sha: Seq<char>) -> bool {
    single_line(sha) && (sha.len() == 0 || (sha[0] != '`' && sha.last() != '`'))
}

/// A changed file that reads back as written: one line, not ending with a
/// backtick, and not beginning with ``- ` `` once a backtick follows it.
pub open spec fn file_round_trips(f: Seq<char>) -> bool {
    single_line(f) && !starts_with(f + "`"@, "- `"@) && (f.len() == 0 || f.last() != '`')
}

/// `l` ends with none of the section headings.
pub open spec fn ends_before_sections(l: Seq<char>) -> bool {
    &&& !ends_with(l, "## Tradeoffs"@)
    &&& !ends_with(l, "## Debt"@)
    &&& !ends_with(l, "## Files Changed"@)
}

/// `s` cut at each line feed: its lines, the last one too, even when empty.
pub open spec fn text_lines(s: Seq<char>) -> Seq<Seq<char>>
    decreases s.len(),
{
    let i = crate::text::newline_at(s);
    proof {
        crate::text::lemma_newline_at_bound(s);
    }
    if i < s.len() {
        seq![s.subrange(0, i as int)] + text_lines(s.subrange(i as int + 1, s.len() as int))
    } else {
        seq![s]
    }
}

/// No line of `ls` ends with `h`.
pub open spec fn no_line_ends(ls: Seq<Seq<char>>, h: Seq<char>) -> bool {
    forall|k: int| 0 <= k < ls.len() ==> !ends_with(#[trigger] ls[k], h)
}

/// A section text (trade-offs or debt) that reads back as written: no
/// whitespace at its ends, no line of it that carries a field label once
/// trimmed, and no line but the first that begins with `## `.
pub open spec fn section_text(t: Seq<char>) -> bool {
    &&& trim(t) == t
    &&& forall|k: int|
        0 <= k < text_lines(t).len() ==> unlabeled(trim(#[trigger] text_lines(t)[k]))
    &&& forall|k: int|
        1 <= k < text_lines(t).len() ==> !starts_with(#[trigger] text_lines(t)[k], "## "@)
}

/// The rendering of `e` with cost text `cost` reads back as `e`: every text
/// but the trade-offs and debt is one line, the single-line fields have no
/// surrounding whitespace, the alternatives and files read back (see their
/// predicates), the trade-offs and debt are section texts whose lines end
/// with no later section's heading (and, without files, no debt line but
/// the first begins with `**`), and no line before a section ends with its
/// heading.
pub open spec fn round_trips(e: EntryView, cost: Seq<char>) -> bool {
    &&& plain(e.id)
    &&& plain(e.intent)
    &&& plain(e.model_used)
    &&& plain(e.agent_host)
    &&& (e.commit_sha matches Some(sha) ==> commit_round_trips(sha))
    &&& (e.room_id matches Some(room) ==> plain(room))
    &&& (forall|i: int|
        0 <= i < e.alternatives.len() ==> alternative_round_trips(#[trigger] e.alternatives[i]))
    &&& section_text(e.tradeoffs)
    &&& section_text(e.debt)
    &&& (forall|i: int|
        0 <= i < e.files_changed.len() ==> file_round_trips(#[trigger] e.files_changed[i]))
    &&& plain(cost)
    &&& ends_before_sections(crate::markdown::id_line(e.id))
    &&& ends_before_sections(crate::markdown::intent_line(e.intent))
    &&& ends_before_sections(crate::markdown::model_line(e.model_used))
    &&& (e.agent_host.len() > 0 ==> ends_before_sections(crate::markdown::host_line(e.agent_host)))
    &&& (e.room_id matches Some(room) ==> ends_before_sections(crate::markdown::room_line(room)))
    &&& (e.alternatives.len() > 0 ==> ends_before_sections(
        crate::markdown::alternative_line(e.alternatives.last()),
    ))
    &&& no_line_ends(text_lines(e.tradeoffs), "## Debt"@)
    &&& no_line_ends(text_lines(e.tradeoffs), "## Files Changed"@)
    &&& no_line_ends(text_lines(e.debt), "## Files Changed"@)
    &&& (e.files_changed.len() == 0 ==> forall|k: int|
        1 <= k < text_lines(e.debt).len() ==> !starts_with(#[trigger] text_lines(e.debt)[k], "**"@))
}

// ---------------------------------------------------------------------
// Single lines
// ---------------------------------------------------------------------

proof fn lemma_single_concat(a: Seq<char>, b: Seq<char>)
    requires
        single_line(a),
        single_line(b),
    ensures
        single_line(a + b),
{
    assert forall|i: int| 0 <= i < (a + b).len() implies (a + b)[i] != '\n' by {
        if i < a.len() {
            assert((a + b)[i] == a[i]);
        } else {
            assert((a + b)[i] == b[i - a.len()]);
        }
    }
}

proof fn lemma_all_single_concat(a: Seq<Seq<char>>, b: Seq<Seq<char>>)
    requires
        crate::text::all_single_line(a),
        crate::text::all_single_line(b),
    ensures
        crate::text::all_single_line(a + b),
{
    assert forall|k: int| 0 <= k < (a + b).len() implies single_line(#[trigger] (a + b)[k]) by {
        if k < a.len() {
            assert((a + b)[k] == a[k]);
        } else {
            assert((a + b)[k] == b[k - a.len()]);
        }
    }
}

proof fn lemma_single_literals()
    ensures
        single_line("# Provenance: "@),
        single_line("**Intent:** "@),
        single_line("**Model:** "@),
        single_line("**Agent Host:** "@),
        single_line("**Commit:** `"@),
        single_line("`"@),
        single_line("**Room:** "@),
        single_line("## Alternatives"@),
        single_line("## Tradeoffs"@),
        single_line("## Debt"@),
        single_line("## Files Changed"@),
        single_line("**Tests Passed:** "@),
        single_line("Yes"@),
        single_line("No"@),
        single_line("**Conservation Cost:** "@),
        single_line("- `"@),
        single_line(Seq::<char>::empty()),
{
    reveal_strlit("# Provenance: ");
    reveal_strlit("**Intent:** ");
    reveal_strlit("**Model:** ");
    reveal_strlit("**Agent Host:** ");
    reveal_strlit("**Commit:** `");
    reveal_strlit("`");
    reveal_strlit("**Room:** ");
    reveal_strlit("## Alternatives");
    reveal_strlit("## Tradeoffs");
    reveal_strlit("## Debt");
    reveal_strlit("## Files Changed");
    reveal_strlit("**Tests Passed:** ");
    reveal_strlit("Yes");
    reveal_strlit("No");
    reveal_strlit("**Conservation Cost:** ");
    reveal_strlit("- `");
}

proof fn lemma_alternative_single(a: AlternativeView)
    requires
        alternative_round_trips(a),
    ensures
        single_line(crate::markdown::alternative_line(a)),
{
    lemma_alternative_line_shape(a);
    reveal_strlit("- [✓]");
    reveal_strlit("- [ ]");
    let bx = check_box(a.selected);
    assert(single_line(bx));
    assert(single_line(seq![' ']));
    assert(single_line(seq!['*', '*']));
    assert(single_line(seq!['*', '*', ':', ' ']));
    lemma_single_concat(seq!['*', '*'], a.name);
    lemma_single_concat(seq!['*', '*'] + a.name, seq!['*', '*', ':', ' ']);
    lemma_single_concat(seq!['*', '*'] + a.name + seq!['*', '*', ':', ' '], a.reason);
    lemma_single_concat(bx, seq![' ']);
    lemma_single_concat(bx + seq![' '], alternative_body(a));
}

/// Cutting a text at its line feeds and joining the pieces gives the text
/// and a final line feed; each piece is one line.
proof fn lemma_text_lines(s: Seq<char>)
    ensures
        text_lines(s).len() > 0,
        crate::text::all_single_line(text_lines(s)),
        join_lines(text_lines(s)) == s.push('\n'),
    decreases s.len(),
{
    let i = crate::text::newline_at(s);
    crate::text::lemma_newline_at_bound(s);
    let ls = text_lines(s);
    if i < s.len() {
        let head = s.subrange(0, i as int);
        let rest = s.subrange(i as int + 1, s.len() as int);
        lemma_text_lines(rest);
        assert(single_line(head));
        lemma_all_single_concat(seq![head], text_lines(rest));
        assert(ls.drop_first() =~= text_lines(rest));
        assert(ls[0] == head);
        assert(s.push('\n') =~= head + seq!['\n'] + rest.push('\n'));
    } else {
        assert(single_line(s));
        assert(ls.drop_first() =~= Seq::<Seq<char>>::empty());
        assert(join_lines(Seq::<Seq<char>>::empty()) =~= Seq::<char>::empty());
        assert(ls[0] == s);
        assert(join_lines(ls) =~= s + seq!['\n'] + Seq::<char>::empty());
    }
}

/// The lines of the rendering of `e`, with the trade-offs and debt cut at
/// their line feeds.
spec fn flat_lines(e: EntryView, cost: Seq<char>) -> Seq<Seq<char>> {
    (head_lines(e) + alt_lines(e) + seq![crate::markdown::blank_line()]) + (seq![
        "## Tradeoffs"@,
        crate::markdown::blank_line(),
    ] + (text_lines(e.tradeoffs) + (seq![
        crate::markdown::blank_line(),
        "## Debt"@,
        crate::markdown::blank_line(),
    ] + (text_lines(e.debt) + (seq![crate::markdown::blank_line()] + tail_lines(e, cost))))))
}

/// The rendering joins the flat lines.
proof fn lemma_render_flat(e: EntryView, cost: Seq<char>)
    ensures
        crate::markdown::render(e, cost) == join_lines(flat_lines(e, cost)),
{
    let blank = crate::markdown::blank_line();
    let p = head_lines(e) + alt_lines(e) + seq![blank, "## Tradeoffs"@, blank];
    let q = seq![blank, "## Debt"@, blank];
    let r = seq![blank] + tail_lines(e, cost);
    let tl = text_lines(e.tradeoffs);
    let dl = text_lines(e.debt);
    let t1 = seq![e.tradeoffs];
    let d1 = seq![e.debt];
    assert(crate::markdown::markdown_lines(e, cost) =~= p + (t1 + (q + (d1 + r))));
    assert(flat_lines(e, cost) =~= p + (tl + (q + (dl + r))));
    lemma_text_lines(e.tradeoffs);
    lemma_text_lines(e.debt);
    assert(t1.drop_first() =~= Seq::<Seq<char>>::empty());
    assert(d1.drop_first() =~= Seq::<Seq<char>>::empty());
    assert(join_lines(Seq::<Seq<char>>::empty()) =~= Seq::<char>::empty());
    assert(t1[0] == e.tradeoffs && d1[0] == e.debt);
    assert(join_lines(t1) =~= e.tradeoffs.push('\n'));
    assert(join_lines(d1) =~= e.debt.push('\n'));
    crate::markdown::lemma_join_lines_append(dl, r);
    crate::markdown::lemma_join_lines_append(d1, r);
    crate::markdown::lemma_join_lines_append(q, dl + r);
    crate::markdown::lemma_join_lines_append(q, d1 + r);
    crate::markdown::lemma_join_lines_append(tl, q + (dl + r));
    crate::markdown::lemma_join_lines_append(t1, q + (d1 + r));
    crate::markdown::lemma_join_lines_append(p, tl + (q + (dl + r)));
    crate::markdown::lemma_join_lines_append(p, t1 + (q + (d1 + r)));
}

/// Every flat line of a rendering that round-trips is a single line.
proof fn lemma_flat_single_lines(e: EntryView, cost: Seq<char>)
    requires
        round_trips(e, cost),
    ensures
        crate::text::all_single_line(flat_lines(e, cost)),
{
    lemma_single_literals();
    let blank = crate::markdown::blank_line();
    let s1 = seq![
        crate::markdown::id_line(e.id),
        blank,
        crate::markdown::intent_line(e.intent),
        blank,
        crate::markdown::model_line(e.model_used),
        blank,
    ];
    lemma_single_concat("# Provenance: "@, e.id);
    lemma_single_concat("**Intent:** "@, e.intent);
    lemma_single_concat("**Model:** "@, e.model_used);
    assert(crate::text::all_single_line(s1));
    let o = crate::markdown::optional_header_lines(e);
    lemma_single_concat("**Agent Host:** "@, e.agent_host);
    match e.commit_sha {
        Some(sha) => {
            lemma_single_concat("**Commit:** `"@, sha);
            lemma_single_concat("**Commit:** `"@ + sha, "`"@);
        },
        None => {},
    }
    match e.room_id {
        Some(room) => {
            lemma_single_concat("**Room:** "@, room);
        },
        None => {},
    }
    assert(crate::text::all_single_line(o));
    let s2 = seq!["## Alternatives"@, blank];
    assert(crate::text::all_single_line(s2));
    lemma_all_single_concat(s1, o);
    lemma_all_single_concat(s1 + o, s2);
    assert(head_lines(e) == s1 + o + s2);
    let alts = alt_lines(e);
    assert forall|k: int| 0 <= k < alts.len() implies single_line(#[trigger] alts[k]) by {
        lemma_alternative_single(e.alternatives[k]);
    }
    let f = crate::markdown::files_section_lines(e.files_changed);
    let fl = e.files_changed.map_values(|x: Seq<char>| crate::markdown::file_line(x));
    assert forall|k: int| 0 <= k < fl.len() implies single_line(#[trigger] fl[k]) by {
        lemma_single_concat("- `"@, e.files_changed[k]);
        lemma_single_concat("- `"@ + e.files_changed[k], "`"@);
    }
    if e.files_changed.len() > 0 {
        lemma_all_single_concat(seq!["## Files Changed"@, blank], fl);
        lemma_all_single_concat(seq!["## Files Changed"@, blank] + fl, seq![blank]);
    }
    assert(crate::text::all_single_line(f));
    lemma_single_concat("**Tests Passed:** "@, "Yes"@);
    lemma_single_concat("**Tests Passed:** "@, "No"@);
    lemma_single_concat("**Conservation Cost:** "@, cost);
    let s4 = seq![
        crate::markdown::tests_line(e.tests_passed),
        blank,
        crate::markdown::cost_line(cost),
    ];
    assert(crate::text::all_single_line(s4));
    lemma_all_single_concat(f, s4);
    let tail = tail_lines(e, cost);
    let tl = text_lines(e.tradeoffs);
    let dl = text_lines(e.debt);
    lemma_text_lines(e.tradeoffs);
    lemma_text_lines(e.debt);
    let b1 = seq![blank];
    let th = seq!["## Tradeoffs"@, blank];
    let dh = seq![blank, "## Debt"@, blank];
    assert(crate::text::all_single_line(b1));
    assert(crate::text::all_single_line(th));
    assert(crate::text::all_single_line(dh));
    lemma_all_single_concat(b1, tail);
    lemma_all_single_concat(dl, b1 + tail);
    lemma_all_single_concat(dh, dl + (b1 + tail));
    lemma_all_single_concat(tl, dh + (dl + (b1 + tail)));
    lemma_all_single_concat(th, tl + (dh + (dl + (b1 + tail))));
    lemma_all_single_concat(head_lines(e), alts);
    lemma_all_single_concat(head_lines(e) + alts, b1);
    lemma_all_single_concat(head_lines(e) + alts + b1, th + (tl + (dh + (dl + (b1 + tail)))));
}

// ---------------------------------------------------------------------
// Reading the lines of a rendering
// ---------------------------------------------------------------------

proof fn lemma_fold_cons(e: EntryView, l: Seq<char>, rest: Seq<Seq<char>>)
    ensures
        fold_lines(e, seq![l] + rest) == fold_lines(apply_line(e, l), rest),
{
    assert((seq![l] + rest).drop_first() =~= rest);
    assert((seq![l] + rest)[0] == l);
}

/// Lines whose trimmed text is unlabeled change nothing.
proof fn lemma_fold_unlabeled(e: EntryView, ls: Seq<Seq<char>>)
    requires
        forall|k: int| 0 <= k < ls.len() ==> unlabeled(trim(#[trigger] ls[k])),
    ensures
        fold_lines(e, ls) == e,
    decreases ls.len(),
{
    if ls.len() > 0 {
        lemma_apply_unlabeled(e, ls[0]);
        assert forall|k: int| 0 <= k < ls.drop_first().len() implies unlabeled(
            trim(#[trigger] ls.drop_first()[k]),
        ) by {
            assert(ls.drop_first()[k] == ls[k + 1]);
        }
        lemma_fold_unlabeled(e, ls.drop_first());
    }
}

/// Reading ignores carriage returns dropped before line feeds.
proof fn lemma_fold_strip_cr(e: EntryView, ls: Seq<Seq<char>>)
    ensures
        fold_lines(e, ls.map_values(|l: Seq<char>| crate::text::strip_cr(l))) == fold_lines(e, ls),
    decreases ls.len(),
{
    let m = ls.map_values(|l: Seq<char>| crate::text::strip_cr(l));
    if ls.len() > 0 {
        crate::text::lemma_trim_strip_cr(ls[0]);
        assert(m[0] == crate::text::strip_cr(ls[0]));
        assert(apply_line(e, m[0]) == apply_line(e, ls[0]));
        assert(m.drop_first() =~= ls.drop_first().map_values(
            |l: Seq<char>| crate::text::strip_cr(l),
        ));
        lemma_fold_strip_cr(apply_line(e, ls[0]), ls.drop_first());
    }
}

/// The cost is read alike with or without carriage returns.
proof fn lemma_last_cost_strip_cr(ls: Seq<Seq<char>>, current: Option<Seq<char>>)
    ensures
        last_cost(ls.map_values(|l: Seq<char>| crate::text::strip_cr(l)), current) == last_cost(
            ls,
            current,
        ),
    decreases ls.len(),
{
    let m = ls.map_values(|l: Seq<char>| crate::text::strip_cr(l));
    if ls.len() > 0 {
        crate::text::lemma_trim_strip_cr(ls[0]);
        assert(m[0] == crate::text::strip_cr(ls[0]));
        assert(m.drop_first() =~= ls.drop_first().map_values(
            |l: Seq<char>| crate::text::strip_cr(l),
        ));
        let line = trim(ls[0]);
        let next = if starts_with(line, "**Conservation Cost:**"@) {
            Some(field_value(line, "**Conservation Cost:**"@))
        } else {
            current
        };
        lemma_last_cost_strip_cr(ls.drop_first(), next);
    }
}

proof fn lemma_headings_unlabeled()
    ensures
        unlabeled(trim("## Alternatives"@)),
        unlabeled(trim("## Tradeoffs"@)),
        unlabeled(trim("## Debt"@)),
        unlabeled(trim("## Files Changed"@)),
        unlabeled(trim(Seq::<char>::empty())),
{
    reveal_strlit("## Alternatives");
    reveal_strlit("## Tradeoffs");
    reveal_strlit("## Debt");
    reveal_strlit("## Files Changed");
    lemma_trim_fixed("## Alternatives"@);
    lemma_trim_fixed("## Tradeoffs"@);
    lemma_trim_fixed("## Debt"@);
    lemma_trim_fixed("## Files Changed"@);
    assert("## Alternatives"@.subrange(0, 2) =~= seq!['#', '#']);
    assert(starts_with("## Alternatives"@, seq!['#', '#']));
    assert("## Tradeoffs"@.subrange(0, 2) =~= seq!['#', '#']);
    assert(starts_with("## Tradeoffs"@, seq!['#', '#']));
    assert("## Debt"@.subrange(0, 2) =~= seq!['#', '#']);
    assert(starts_with("## Debt"@, seq!['#', '#']));
    assert("## Files Changed"@.subrange(0, 2) =~= seq!['#', '#']);
    assert(starts_with("## Files Changed"@, seq!['#', '#']));
    lemma_unlabeled_hashes("## Alternatives"@);
    lemma_unlabeled_hashes("## Tradeoffs"@);
    lemma_unlabeled_hashes("## Debt"@);
    lemma_unlabeled_hashes("## Files Changed"@);
    lemma_unlabeled_empty();
}

proof fn lemma_file_line_unlabeled(f: Seq<char>)
    ensures
        trim(crate::markdown::file_line(f)) == crate::markdown::file_line(f),
        unlabeled(crate::markdown::file_line(f)),
{
    reveal_strlit("- `");
    reveal_strlit("`");
    let l = crate::markdown::file_line(f);
    assert(l[0] == '-');
    assert(l.last() == '`');
    lemma_trim_fixed(l);
    assert(l =~= seq!['-', ' ', '`'] + (f + "`"@));
    lemma_starts_concat(seq!['-', ' ', '`'], f + "`"@);
    lemma_unlabeled_file(l);
}

/// Reading the alternative lines adds the alternatives.
proof fn lemma_fold_alternatives(e: EntryView, alts: Seq<AlternativeView>)
    requires
        forall|i: int| 0 <= i < alts.len() ==> alternative_round_trips(#[trigger] alts[i]),
    ensures
        fold_lines(e, alts.map_values(|a: AlternativeView| crate::markdown::alternative_line(a)))
            == (EntryView { alternatives: e.alternatives + alts, ..e }),
    decreases alts.len(),
{
    let m = alts.map_values(|a: AlternativeView| crate::markdown::alternative_line(a));
    if alts.len() == 0 {
        assert(e.alternatives + alts =~= e.alternatives);
    } else {
        assert(alternative_round_trips(alts[0]));
        lemma_apply_alternative(e, alts[0]);
        assert(m =~= seq![crate::markdown::alternative_line(alts[0])] + alts.drop_first().map_values(
            |a: AlternativeView| crate::markdown::alternative_line(a),
        ));
        lemma_fold_cons(e, crate::markdown::alternative_line(alts[0]), alts.drop_first().map_values(
            |a: AlternativeView| crate::markdown::alternative_line(a),
        ));
        let e1 = EntryView { alternatives: e.alternatives.push(alts[0]), ..e };
        assert forall|i: int| 0 <= i < alts.drop_first().len() implies alternative_round_trips(
            #[trigger] alts.drop_first()[i],
        ) by {
            assert(alts.drop_first()[i] == alts[i + 1]);
        }
        lemma_fold_alternatives(e1, alts.drop_first());
        assert(e.alternatives.push(alts[0]) + alts.drop_first() =~= e.alternatives + alts);
    }
}


proof fn lemma_fold_pair(e: EntryView, l: Seq<char>)
    ensures
        fold_lines(e, seq![l, crate::markdown::blank_line()]) == apply_line(e, l),
{
    lemma_headings_unlabeled();
    assert(seq![l, crate::markdown::blank_line()] =~= seq![l] + seq![crate::markdown::blank_line()]);
    lemma_fold_cons(e, l, seq![crate::markdown::blank_line()]);
    lemma_apply_unlabeled(apply_line(e, l), crate::markdown::blank_line());
    assert(seq![crate::markdown::blank_line()] =~= seq![crate::markdown::blank_line()] + Seq::<
        Seq<char>,
    >::empty());
    lemma_fold_cons(apply_line(e, l), crate::markdown::blank_line(), Seq::<Seq<char>>::empty());
}

/// Reading the optional header lines sets the agent host, the commit and
/// the room.
proof fn lemma_fold_optional(e0: EntryView, e: EntryView)
    requires
        e0.agent_host.len() == 0,
        e0.commit_sha is None,
        e0.room_id is None,
        plain(e.agent_host),
        e.commit_sha matches Some(sha) ==> commit_round_trips(sha),
        e.room_id matches Some(room) ==> plain(room),
    ensures
        fold_lines(e0, crate::markdown::optional_header_lines(e)) == (EntryView {
            agent_host: e.agent_host,
            commit_sha: e.commit_sha,
            room_id: e.room_id,
            ..e0
        }),
{
    let o1 = if e.agent_host.len() > 0 {
        seq![crate::markdown::host_line(e.agent_host), crate::markdown::blank_line()]
    } else {
        Seq::<Seq<char>>::empty()
    };
    let o2 = match e.commit_sha {
        Some(sha) => seq![crate::markdown::commit_line(sha), crate::markdown::blank_line()],
        None => Seq::<Seq<char>>::empty(),
    };
    let o3 = match e.room_id {
        Some(room) => seq![crate::markdown::room_line(room), crate::markdown::blank_line()],
        None => Seq::<Seq<char>>::empty(),
    };
    assert(crate::markdown::optional_header_lines(e) == o1 + o2 + o3);
    lemma_fold_append(e0, o1 + o2, o3);
    lemma_fold_append(e0, o1, o2);
    let e1 = EntryView { agent_host: e.agent_host, ..e0 };
    if e.agent_host.len() > 0 {
        lemma_fold_pair(e0, crate::markdown::host_line(e.agent_host));
        lemma_apply_host(e0, e.agent_host);
    } else {
        assert(e.agent_host =~= e0.agent_host);
    }
    assert(fold_lines(e0, o1) == e1);
    let e2 = EntryView { commit_sha: e.commit_sha, ..e1 };
    match e.commit_sha {
        Some(sha) => {
            lemma_fold_pair(e1, crate::markdown::commit_line(sha));
            lemma_apply_commit(e1, sha);
        },
        None => {},
    }
    assert(fold_lines(e1, o2) == e2);
    match e.room_id {
        Some(room) => {
            lemma_fold_pair(e2, crate::markdown::room_line(room));
            lemma_apply_room(e2, room);
        },
        None => {},
    }
}

/// Every line of `ls` is unlabeled once trimmed.
spec fn lines_unlabeled(ls: Seq<Seq<char>>) -> bool {
    forall|k: int| 0 <= k < ls.len() ==> unlabeled(trim(#[trigger] ls[k]))
}

proof fn lemma_lines_unlabeled_concat(a: Seq<Seq<char>>, b: Seq<Seq<char>>)
    requires
        lines_unlabeled(a),
        lines_unlabeled(b),
    ensures
        lines_unlabeled(a + b),
{
    assert forall|k: int| 0 <= k < (a + b).len() implies unlabeled(trim(#[trigger] (a + b)[k])) by {
        if k < a.len() {
            assert((a + b)[k] == a[k]);
        } else {
            assert((a + b)[k] == b[k - a.len()]);
        }
    }
}

/// Reading a rendering that round-trips sets the fields that lines carry.
proof fn lemma_fold_markdown(e: EntryView, cost: Seq<char>, base: EntryView)
    requires
        round_trips(e, cost),
        base.agent_host.len() == 0,
        base.commit_sha is None,
        base.room_id is None,
        base.alternatives.len() == 0,
    ensures
        fold_lines(base, flat_lines(e, cost)) == (EntryView {
            id: e.id,
            intent: e.intent,
            model_used: e.model_used,
            agent_host: e.agent_host,
            commit_sha: e.commit_sha,
            room_id: e.room_id,
            alternatives: e.alternatives,
            tests_passed: e.tests_passed,
            ..base
        }),
{
    lemma_headings_unlabeled();
    let blank = crate::markdown::blank_line();
    let s1 = seq![
        crate::markdown::id_line(e.id),
        blank,
        crate::markdown::intent_line(e.intent),
        blank,
        crate::markdown::model_line(e.model_used),
        blank,
    ];
    let o = crate::markdown::optional_header_lines(e);
    let s2 = seq!["## Alternatives"@, blank];
    let alts = e.alternatives.map_values(
        |a: AlternativeView| crate::markdown::alternative_line(a),
    );
    let tl = text_lines(e.tradeoffs);
    let dl = text_lines(e.debt);
    let th = seq![blank, "## Tradeoffs"@, blank];
    let dh = seq![blank, "## Debt"@, blank];
    let b1 = seq![blank];
    let s3 = th + tl + dh + dl + b1;
    let f = crate::markdown::files_section_lines(e.files_changed);
    let s4 = seq![
        crate::markdown::tests_line(e.tests_passed),
        blank,
        crate::markdown::cost_line(cost),
    ];
    assert(flat_lines(e, cost) =~= s1 + o + s2 + alts + s3 + f + s4);
    lemma_fold_append(base, s1 + o + s2 + alts + s3 + f, s4);
    lemma_fold_append(base, s1 + o + s2 + alts + s3, f);
    lemma_fold_append(base, s1 + o + s2 + alts, s3);
    lemma_fold_append(base, s1 + o + s2, alts);
    lemma_fold_append(base, s1 + o, s2);
    lemma_fold_append(base, s1, o);
    // The head sets identifier, intent and model.
    let p1 = seq![crate::markdown::id_line(e.id), blank];
    let p2 = seq![crate::markdown::intent_line(e.intent), blank];
    let p3 = seq![crate::markdown::model_line(e.model_used), blank];
    assert(s1 =~= p1 + p2 + p3);
    lemma_fold_append(base, p1 + p2, p3);
    lemma_fold_append(base, p1, p2);
    lemma_fold_pair(base, crate::markdown::id_line(e.id));
    lemma_apply_id(base, e.id);
    let a1 = EntryView { id: e.id, ..base };
    lemma_fold_pair(a1, crate::markdown::intent_line(e.intent));
    lemma_apply_intent(a1, e.intent);
    let a2 = EntryView { intent: e.intent, ..a1 };
    lemma_fold_pair(a2, crate::markdown::model_line(e.model_used));
    lemma_apply_model(a2, e.model_used);
    let e1 = EntryView { model_used: e.model_used, ..a2 };
    assert(fold_lines(base, s1) == e1);
    lemma_fold_optional(e1, e);
    let e2 = EntryView {
        agent_host: e.agent_host,
        commit_sha: e.commit_sha,
        room_id: e.room_id,
        ..e1
    };
    assert forall|k: int| 0 <= k < s2.len() implies unlabeled(trim(#[trigger] s2[k])) by {}
    lemma_fold_unlabeled(e2, s2);
    lemma_fold_alternatives(e2, e.alternatives);
    assert(e2.alternatives + e.alternatives =~= e.alternatives);
    let e4 = EntryView { alternatives: e.alternatives, ..e2 };
    // The sections change nothing.
    assert(lines_unlabeled(th));
    assert(lines_unlabeled(dh));
    assert(lines_unlabeled(b1));
    assert(lines_unlabeled(tl));
    assert(lines_unlabeled(dl));
    lemma_lines_unlabeled_concat(th, tl);
    lemma_lines_unlabeled_concat(th + tl, dh);
    lemma_lines_unlabeled_concat(th + tl + dh, dl);
    lemma_lines_unlabeled_concat(th + tl + dh + dl, b1);
    lemma_fold_unlabeled(e4, s3);
    if e.files_changed.len() > 0 {
        let fl = e.files_changed.map_values(|x: Seq<char>| crate::markdown::file_line(x));
        assert(f == seq!["## Files Changed"@, blank] + fl + seq![blank]);
        assert forall|k: int| 0 <= k < f.len() implies unlabeled(trim(#[trigger] f[k])) by {
            if 2 <= k < 2 + fl.len() {
                assert(f[k] == fl[k - 2]);
                lemma_file_line_unlabeled(e.files_changed[k - 2]);
            } else if k < 2 {
                assert(f[k] == seq!["## Files Changed"@, blank][k]);
            } else {
                assert(f[k] == blank);
            }
        }
    } else {
        assert(f.len() == 0);
    }
    lemma_fold_unlabeled(e4, f);
    // The tests line sets whether tests passed; the cost line changes nothing.
    assert(s4 =~= seq![crate::markdown::tests_line(e.tests_passed), blank] + seq![
        crate::markdown::cost_line(cost),
    ]);
    lemma_fold_append(e4, seq![crate::markdown::tests_line(e.tests_passed), blank], seq![
        crate::markdown::cost_line(cost),
    ]);
    lemma_fold_pair(e4, crate::markdown::tests_line(e.tests_passed));
    lemma_apply_tests(e4, e.tests_passed);
    let e7 = EntryView { tests_passed: e.tests_passed, ..e4 };
    assert(seq![crate::markdown::cost_line(cost)] =~= seq![crate::markdown::cost_line(cost)]
        + Seq::<Seq<char>>::empty());
    lemma_fold_cons(e7, crate::markdown::cost_line(cost), Seq::<Seq<char>>::empty());
    lemma_apply_cost(e7, cost);
}


// ---------------------------------------------------------------------
// Finding the sections of a rendering
// ---------------------------------------------------------------------

/// `s` and `p` differ at the `k`-th character from the end: `s` does not
/// end with `p`.
proof fn lemma_end_differs(s: Seq<char>, p: Seq<char>, k: int)
    requires
        0 < k <= p.len(),
        k <= s.len(),
        s[s.len() - k] != p[p.len() - k],
    ensures
        !ends_with(s, p),
{
    if ends_with(s, p) {
        assert(s.subrange(s.len() - p.len(), s.len() as int)[p.len() - k] == s[s.len() - k]);
    }
}

/// The three section headings.
spec fn is_heading(h: Seq<char>) -> bool {
    h == "## Tradeoffs"@ || h == "## Debt"@ || h == "## Files Changed"@
}

proof fn lemma_heading_facts(h: Seq<char>)
    requires
        is_heading(h),
    ensures
        h.len() > 0,
        single_line(h),
        !ends_with("## Alternatives"@, h),
        !ends_with(crate::markdown::blank_line(), h),
        h != "## Tradeoffs"@ ==> !ends_with("## Tradeoffs"@, h),
        h == "## Files Changed"@ ==> !ends_with("## Debt"@, h),
        forall|passed: bool|
            h == "## Files Changed"@ ==> !ends_with(#[trigger] crate::markdown::tests_line(passed), h),
        forall|sha: Seq<char>| !ends_with(#[trigger] crate::markdown::commit_line(sha), h),
{
    reveal_strlit("## Alternatives");
    reveal_strlit("## Tradeoffs");
    reveal_strlit("## Debt");
    reveal_strlit("## Files Changed");
    reveal_strlit("**Tests Passed:** ");
    reveal_strlit("Yes");
    reveal_strlit("No");
    reveal_strlit("**Commit:** `");
    reveal_strlit("`");
    if h == "## Tradeoffs"@ {
        lemma_end_differs("## Alternatives"@, h, 2);
    } else {
        lemma_end_differs("## Alternatives"@, h, 1);
    }
    if h != "## Tradeoffs"@ {
        lemma_end_differs("## Tradeoffs"@, h, 1);
    }
    if h == "## Files Changed"@ {
        lemma_end_differs("## Debt"@, h, 1);
        assert forall|passed: bool| !ends_with(#[trigger] crate::markdown::tests_line(passed), h) by {
            let l = crate::markdown::tests_line(passed);
            assert(l.last() == (if passed { 's' } else { 'o' }));
            lemma_end_differs(l, h, 1);
        }
    }
    assert forall|sha: Seq<char>| !ends_with(#[trigger] crate::markdown::commit_line(sha), h) by {
        let l = crate::markdown::commit_line(sha);
        assert(l.last() == '`');
        lemma_end_differs(l, h, 1);
    }
}

/// A line that does not end with `h`, an empty line, then `next`.
proof fn lemma_header_free_pair(l: Seq<char>, next: Seq<char>, h: Seq<char>)
    requires
        h.len() > 0,
        !ends_with(l, h),
    ensures
        header_free(seq![l, crate::markdown::blank_line(), next], h),
{
    let blank = crate::markdown::blank_line();
    let ls = seq![l, blank, next];
    let tail = seq![blank, next];
    assert(ls.drop_first() =~= tail);
    assert(tail.drop_first() =~= seq![next]);
    assert(header_free(seq![next], h));
    assert(!ends_with(blank, h));
    assert(tail[0] == blank);
    assert(header_free(tail, h));
    assert(ls[0] == l && ls[1] == blank);
    assert(blank.len() == 0);
}

/// Pairs of a line and an empty line, then `next`.
proof fn lemma_header_free_pairs(a: Seq<Seq<char>>, next: Seq<char>, h: Seq<char>)
    requires
        h.len() > 0,
        a.len() % 2 == 0,
        forall|k: int| 0 <= k < a.len() && k % 2 == 1 ==> a[k] == crate::markdown::blank_line(),
        forall|k: int| 0 <= k < a.len() && k % 2 == 0 ==> !ends_with(#[trigger] a[k], h),
    ensures
        header_free(a.push(next), h),
    decreases a.len(),
{
    if a.len() > 0 {
        let rest = a.subrange(2, a.len() as int);
        assert forall|k: int| 0 <= k < rest.len() && k % 2 == 1 implies rest[k]
            == crate::markdown::blank_line() by {
            assert(rest[k] == a[k + 2]);
        }
        assert forall|k: int| 0 <= k < rest.len() && k % 2 == 0 implies !ends_with(
            #[trigger] rest[k],
            h,
        ) by {
            assert(rest[k] == a[k + 2]);
        }
        lemma_header_free_pairs(rest, next, h);
        let b = rest.push(next);
        let head = seq![a[0], a[1]];
        assert(a.push(next) =~= head + b);
        assert(a[1] == crate::markdown::blank_line());
        assert(!ends_with(a[0], h));
        lemma_header_free_pair(a[0], b[0], h);
        assert(head.push(b[0]) =~= seq![a[0], crate::markdown::blank_line(), b[0]]);
        lemma_header_free_append(head, b, h);
    } else {
        assert(a.push(next) =~= seq![next]);
    }
}

/// The alternative lines, an empty line, then `next`.
proof fn lemma_header_free_alternatives(alts: Seq<AlternativeView>, next: Seq<char>, h: Seq<char>)
    requires
        h.len() > 0,
        alts.len() > 0 ==> !ends_with(crate::markdown::alternative_line(alts.last()), h),
    ensures
        header_free(
            alts.map_values(|a: AlternativeView| crate::markdown::alternative_line(a)) + seq![
                crate::markdown::blank_line(),
                next,
            ],
            h,
        ),
    decreases alts.len(),
{
    let blank = crate::markdown::blank_line();
    let m = alts.map_values(|a: AlternativeView| crate::markdown::alternative_line(a));
    let tail = seq![blank, next];
    assert(tail.drop_first() =~= seq![next]);
    assert(header_free(seq![next], h));
    assert(!ends_with(blank, h));
    assert(tail[0] == blank);
    assert(header_free(tail, h));
    if alts.len() == 0 {
        assert(m + tail =~= tail);
    } else {
        let rest = alts.drop_first();
        let mr = rest.map_values(|a: AlternativeView| crate::markdown::alternative_line(a));
        if rest.len() > 0 {
            assert(rest.last() == alts.last());
        }
        lemma_header_free_alternatives(rest, next, h);
        assert(m[0] == crate::markdown::alternative_line(alts[0]));
        assert(mr =~= m.drop_first());
        assert((m + tail).drop_first() =~= mr + tail);
        assert((m + tail)[0] == m[0]);
        if rest.len() == 0 {
            assert(alts.last() == alts[0]);
            assert((m + tail)[1] == blank);
            assert(!ends_with(m[0], h));
        } else {
            assert((m + tail)[1] == mr[0]);
            reveal_strlit("- [");
            assert(mr[0] == crate::markdown::alternative_line(rest[0]));
            assert(mr[0].len() > 0);
        }
        assert(header_free(mr + tail, h));
    }
}

/// The optional header lines, then `next`.
proof fn lemma_header_free_optional(e: EntryView, next: Seq<char>, h: Seq<char>)
    requires
        is_heading(h),
        e.agent_host.len() > 0 ==> ends_before_sections(crate::markdown::host_line(e.agent_host)),
        e.room_id matches Some(room) ==> ends_before_sections(crate::markdown::room_line(room)),
    ensures
        header_free(crate::markdown::optional_header_lines(e).push(next), h),
{
    lemma_heading_facts(h);
    let blank = crate::markdown::blank_line();
    let o = crate::markdown::optional_header_lines(e);
    let mut ls: Seq<Seq<char>> = Seq::empty();
    if e.agent_host.len() > 0 {
        ls = ls + seq![crate::markdown::host_line(e.agent_host), blank];
    }
    match e.commit_sha {
        Some(sha) => {
            ls = ls + seq![crate::markdown::commit_line(sha), blank];
        },
        None => {},
    }
    match e.room_id {
        Some(room) => {
            ls = ls + seq![crate::markdown::room_line(room), blank];
        },
        None => {},
    }
    assert(o =~= ls);
    assert forall|k: int| 0 <= k < ls.len() && k % 2 == 1 implies ls[k] == blank by {}
    assert forall|k: int| 0 <= k < ls.len() && k % 2 == 0 implies !ends_with(#[trigger] ls[k], h) by {}
    lemma_header_free_pairs(ls, next, h);
}


/// The lines before the alternatives: the fixed header fields, the
/// optional ones and the alternatives heading, each with its empty line.
spec fn head_lines(e: EntryView) -> Seq<Seq<char>> {
    seq![
        crate::markdown::id_line(e.id),
        crate::markdown::blank_line(),
        crate::markdown::intent_line(e.intent),
        crate::markdown::blank_line(),
        crate::markdown::model_line(e.model_used),
        crate::markdown::blank_line(),
    ] + crate::markdown::optional_header_lines(e) + seq!["## Alternatives"@, crate::markdown::blank_line()]
}

/// No heading is found among the head lines and the line after them.
proof fn lemma_header_free_head(e: EntryView, cost: Seq<char>, next: Seq<char>, h: Seq<char>)
    requires
        round_trips(e, cost),
        is_heading(h),
    ensures
        header_free(head_lines(e).push(next), h),
{
    lemma_heading_facts(h);
    let blank = crate::markdown::blank_line();
    let s1 = seq![
        crate::markdown::id_line(e.id),
        blank,
        crate::markdown::intent_line(e.intent),
        blank,
        crate::markdown::model_line(e.model_used),
        blank,
    ];
    let o = crate::markdown::optional_header_lines(e);
    let ah = "## Alternatives"@;
    // The alternatives heading, its empty line and `next`.
    lemma_header_free_pair(ah, next, h);
    // The optional lines, then the alternatives heading.
    lemma_header_free_optional(e, ah, h);
    let rest = seq![ah, blank, next];
    assert(rest[0] == ah);
    lemma_header_free_append(o, rest, h);
    let r = o + rest;
    // The fixed lines, then what follows them.
    assert forall|k: int| 0 <= k < s1.len() && k % 2 == 1 implies s1[k] == blank by {}
    assert forall|k: int| 0 <= k < s1.len() && k % 2 == 0 implies !ends_with(#[trigger] s1[k], h) by {
        assert(k == 0 || k == 2 || k == 4);
    }
    lemma_header_free_pairs(s1, r[0], h);
    lemma_header_free_append(s1, r, h);
    assert(head_lines(e).push(next) =~= s1 + r);
}


/// The lines of the alternatives.
spec fn alt_lines(e: EntryView) -> Seq<Seq<char>> {
    e.alternatives.map_values(|a: AlternativeView| crate::markdown::alternative_line(a))
}

/// No heading is found before the empty line after the alternatives.
proof fn lemma_header_free_upto(e: EntryView, cost: Seq<char>, next: Seq<char>, h: Seq<char>)
    requires
        round_trips(e, cost),
        is_heading(h),
    ensures
        header_free(head_lines(e) + (alt_lines(e) + seq![crate::markdown::blank_line(), next]), h),
{
    lemma_heading_facts(h);
    let b = alt_lines(e) + seq![crate::markdown::blank_line(), next];
    lemma_header_free_alternatives(e.alternatives, next, h);
    lemma_header_free_head(e, cost, b[0], h);
    lemma_header_free_append(head_lines(e), b, h);
}

/// The lines after the debt section: the files section, if any, and the
/// tests and cost lines.
spec fn tail_lines(e: EntryView, cost: Seq<char>) -> Seq<Seq<char>> {
    crate::markdown::files_section_lines(e.files_changed) + seq![
        crate::markdown::tests_line(e.tests_passed),
        crate::markdown::blank_line(),
        crate::markdown::cost_line(cost),
    ]
}

/// What follows a heading and its empty line in joined lines.
proof fn lemma_after_heading(a: Seq<Seq<char>>, h: Seq<char>, r: Seq<Seq<char>>)
    ensures
        join_lines(a + (seq![h, crate::markdown::blank_line()] + r)).len() == join_lines(a).len()
            + h.len() + 2 + join_lines(r).len(),
        join_lines(a + (seq![h, crate::markdown::blank_line()] + r)).subrange(
            join_lines(a).len() + h.len() + 2int,
            join_lines(a + (seq![h, crate::markdown::blank_line()] + r)).len() as int,
        ) == join_lines(r),
{
    let blank = crate::markdown::blank_line();
    let b = seq![h, blank] + r;
    crate::markdown::lemma_join_lines_append(a, b);
    assert(b.drop_first() =~= seq![blank] + r);
    assert((seq![blank] + r).drop_first() =~= r);
    assert(join_lines(seq![blank] + r) =~= seq!['\n'] + join_lines(r));
    assert(join_lines(b) =~= h + seq!['\n'] + (seq!['\n'] + join_lines(r)));
    let md = join_lines(a + b);
    assert(md.subrange(join_lines(a).len() + h.len() + 2int, md.len() as int) =~= join_lines(r));
}

/// The lines after some first lines are single lines too.
proof fn lemma_single_suffix(a: Seq<Seq<char>>, b: Seq<Seq<char>>)
    requires
        crate::text::all_single_line(a + b),
    ensures
        crate::text::all_single_line(b),
{
    assert forall|k: int| 0 <= k < b.len() implies single_line(#[trigger] b[k]) by {
        assert(b[k] == (a + b)[a.len() + k]);
    }
}

/// A line, an empty line and a line beginning with `b`: the break is after
/// the first line.
proof fn lemma_break_second(r: Seq<Seq<char>>, b: Seq<char>)
    requires
        r.len() >= 3,
        r[1].len() == 0,
        starts_with(r[2], b),
        b.len() > 0,
    ensures
        crate::text::break_pos(r, b) == Some(r[0].len() + 1int),
{
    let r1 = r.drop_first();
    assert(r1[1] == r[2]);
    assert(crate::text::break_pos(r1, b) == Some(r1[0].len() as int));
    assert(!starts_with(r[1], b));
}

/// A heading line and its empty line where `h` is not found before.
proof fn lemma_heading_at(a: Seq<Seq<char>>, h: Seq<char>, r: Seq<Seq<char>>)
    requires
        h.len() > 0,
        header_free(a.push(h), h),
    ensures
        header_pos(a + (seq![h, crate::markdown::blank_line()] + r), h) == Some(
            join_lines(a).len() as int,
        ),
{
    let b = seq![h, crate::markdown::blank_line()] + r;
    assert(b[0] == h);
    lemma_header_pos_append(a, b, h);
    assert(h.subrange(h.len() - h.len(), h.len() as int) =~= h);
    assert(ends_with(b[0], h));
    assert(b[1].len() == 0);
}


/// No line after the first begins with `b`: there is no break.
proof fn lemma_break_none(r: Seq<Seq<char>>, b: Seq<char>)
    requires
        forall|k: int| 1 <= k < r.len() ==> !starts_with(#[trigger] r[k], b),
    ensures
        crate::text::break_pos(r, b) is None,
    decreases r.len(),
{
    if r.len() >= 2 {
        let r1 = r.drop_first();
        assert forall|k: int| 1 <= k < r1.len() implies !starts_with(#[trigger] r1[k], b) by {
            assert(r1[k] == r[k + 1]);
        }
        assert(!starts_with(r[1], b));
        lemma_break_none(r1, b);
    } else if r.len() == 1 {
        assert(crate::text::break_pos(r.drop_first(), b) is None);
    }
}

/// A file line reads back as its file.
proof fn lemma_file_of_line(f: Seq<char>)
    requires
        file_round_trips(f),
    ensures
        starts_with(crate::markdown::file_line(f), "- `"@),
        crate::text::strip_cr(crate::markdown::file_line(f)) == crate::markdown::file_line(f),
        crate::markdown::file_of(crate::markdown::file_line(f)) == f,
{
    reveal_strlit("- `");
    reveal_strlit("`");
    let p = "- `"@;
    let l = crate::markdown::file_line(f);
    assert(l.subrange(0, 3) =~= p);
    assert(l.subrange(3, l.len() as int) =~= f + "`"@);
    assert(strip_prefix_all(f + "`"@, p) == f + "`"@);
    assert(strip_prefix_all(l, p) == f + "`"@);
    assert((f + "`"@).last() == '`');
    assert((f + "`"@).drop_last() =~= f);
    assert(trim_end_char(f + "`"@, '`') == trim_end_char(f, '`'));
    assert(l.last() == '`');
}

/// The file lines, then a line that is not one, read back as the files.
proof fn lemma_file_entries(files: Seq<Seq<char>>, rest: Seq<Seq<char>>)
    requires
        forall|i: int| 0 <= i < files.len() ==> file_round_trips(#[trigger] files[i]),
        rest.len() > 0,
        !starts_with(rest[0], "- `"@),
    ensures
        crate::markdown::file_entries(
            files.map_values(|f: Seq<char>| crate::markdown::file_line(f)) + rest,
        ) == files,
    decreases files.len(),
{
    let m = files.map_values(|f: Seq<char>| crate::markdown::file_line(f));
    if files.len() == 0 {
        assert(m + rest =~= rest);
    } else {
        let fr = files.drop_first();
        assert forall|i: int| 0 <= i < fr.len() implies file_round_trips(#[trigger] fr[i]) by {
            assert(fr[i] == files[i + 1]);
        }
        lemma_file_entries(fr, rest);
        let mr = fr.map_values(|f: Seq<char>| crate::markdown::file_line(f));
        assert((m + rest).drop_first() =~= mr + rest);
        assert((m + rest)[0] == crate::markdown::file_line(files[0]));
        lemma_file_of_line(files[0]);
        assert(files =~= seq![files[0]] + fr);
    }
}

/// Lines that end with no `h`, then any line: no heading `h` is found.
proof fn lemma_header_free_push(ls: Seq<Seq<char>>, last: Seq<char>, h: Seq<char>)
    requires
        no_line_ends(ls, h),
    ensures
        header_free(ls.push(last), h),
    decreases ls.len(),
{
    let x = ls.push(last);
    if ls.len() > 0 {
        let rest = ls.drop_first();
        assert(no_line_ends(rest, h)) by {
            assert forall|k: int| 0 <= k < rest.len() implies !ends_with(#[trigger] rest[k], h) by {
                assert(rest[k] == ls[k + 1]);
            }
        }
        lemma_header_free_push(rest, last, h);
        assert(x.drop_first() =~= rest.push(last));
        assert(x[0] == ls[0]);
        assert(!ends_with(ls[0], h));
    }
}

proof fn lemma_no_line_ends_concat(a: Seq<Seq<char>>, b: Seq<Seq<char>>, h: Seq<char>)
    requires
        no_line_ends(a, h),
        no_line_ends(b, h),
    ensures
        no_line_ends(a + b, h),
{
    assert forall|k: int| 0 <= k < (a + b).len() implies !ends_with(#[trigger] (a + b)[k], h) by {
        if k < a.len() {
            assert((a + b)[k] == a[k]);
        } else {
            assert((a + b)[k] == b[k - a.len()]);
        }
    }
}

/// Lines whose later ones do not begin with `b`, an empty line and a line
/// beginning with `b`: the break is where the first lines end.
proof fn lemma_break_after(tl: Seq<Seq<char>>, rest: Seq<Seq<char>>, b: Seq<char>)
    requires
        tl.len() > 0,
        forall|k: int| 1 <= k < tl.len() ==> !starts_with(#[trigger] tl[k], b),
        rest.len() >= 2,
        rest[0].len() == 0,
        starts_with(rest[1], b),
        b.len() > 0,
    ensures
        crate::text::break_pos(tl + rest, b) == Some(join_lines(tl).len() as int),
    decreases tl.len(),
{
    let ls = tl + rest;
    if tl.len() == 1 {
        assert(ls[0] == tl[0] && ls[1] == rest[0] && ls[2] == rest[1]);
        lemma_break_second(ls, b);
        assert(tl.drop_first() =~= Seq::<Seq<char>>::empty());
        assert(join_lines(Seq::<Seq<char>>::empty()) =~= Seq::<char>::empty());
        assert(join_lines(tl) == tl[0] + seq!['\n'] + join_lines(tl.drop_first()));
    } else {
        let t1 = tl.drop_first();
        assert forall|k: int| 1 <= k < t1.len() implies !starts_with(#[trigger] t1[k], b) by {
            assert(t1[k] == tl[k + 1]);
        }
        lemma_break_after(t1, rest, b);
        assert(ls.drop_first() =~= t1 + rest);
        assert(ls[1] == tl[1]);
        assert(!starts_with(ls[1], b));
        assert(ls[0] == tl[0]);
        assert(join_lines(tl) == tl[0] + seq!['\n'] + join_lines(t1));
    }
}

/// The trade-offs section of a rendering reads back as the trade-offs.
proof fn lemma_tradeoffs_read(e: EntryView, cost: Seq<char>, current: Seq<char>)
    requires
        round_trips(e, cost),
    ensures
        crate::markdown::tradeoffs_section(crate::markdown::render(e, cost), current) == e.tradeoffs,
{
    reveal_strlit("## Tradeoffs\n\n");
    reveal_strlit("## Tradeoffs");
    reveal_strlit("\n## ");
    reveal_strlit("## ");
    reveal_strlit("## Debt");
    let blank = crate::markdown::blank_line();
    let th = "## Tradeoffs"@;
    let dh = "## Debt"@;
    let t = e.tradeoffs;
    let tl = text_lines(t);
    let a = head_lines(e) + alt_lines(e) + seq![blank];
    let after = seq![blank, dh, blank] + (text_lines(e.debt) + (seq![blank] + tail_lines(e, cost)));
    let r = tl + after;
    let ls = flat_lines(e, cost);
    let md = crate::markdown::render(e, cost);
    lemma_render_flat(e, cost);
    assert(ls =~= a + (seq![th, blank] + r));
    lemma_flat_single_lines(e, cost);
    lemma_heading_facts(th);
    // Where the heading is.
    lemma_header_free_upto(e, cost, th, th);
    assert(a.push(th) =~= head_lines(e) + (alt_lines(e) + seq![blank, th]));
    lemma_heading_at(a, th, r);
    crate::text::lemma_find_header(ls, th);
    assert("## Tradeoffs\n\n"@ =~= th + seq!['\n', '\n']);
    let start = join_lines(a).len() as int;
    assert(find(md, "## Tradeoffs\n\n"@) == Some(start));
    // What follows it.
    lemma_after_heading(a, th, r);
    let rest = crate::markdown::after(md, start, "## Tradeoffs\n\n"@);
    assert(rest == join_lines(r));
    // Where the section ends.
    assert(ls =~= (a + seq![th, blank]) + r);
    lemma_single_suffix(a + seq![th, blank], r);
    assert("\n## "@ =~= seq!['\n'] + "## "@);
    assert(single_line("## "@));
    crate::text::lemma_find_break(r, "## "@);
    lemma_text_lines(t);
    assert(after[0] == blank);
    assert(after[1] == dh);
    assert(dh.subrange(0, 3) =~= "## "@);
    lemma_break_after(tl, after, "## "@);
    assert(find(rest, "\n## "@) == Some(join_lines(tl).len() as int));
    crate::markdown::lemma_join_lines_append(tl, after);
    assert(rest.subrange(0, join_lines(tl).len() as int) =~= t.push('\n'));
    crate::text::lemma_trim_push_ws(t, '\n');
}

/// The debt section of a rendering reads back as the debt.
proof fn lemma_debt_read(e: EntryView, cost: Seq<char>, current: Seq<char>)
    requires
        round_trips(e, cost),
    ensures
        crate::markdown::debt_section(crate::markdown::render(e, cost), current) == e.debt,
{
    reveal_strlit("## Debt\n\n");
    reveal_strlit("## Tradeoffs");
    reveal_strlit("\n## ");
    reveal_strlit("\n**");
    reveal_strlit("## ");
    reveal_strlit("**");
    reveal_strlit("## Debt");
    reveal_strlit("## Files Changed");
    reveal_strlit("**Tests Passed:** ");
    reveal_strlit("**Conservation Cost:** ");
    let blank = crate::markdown::blank_line();
    let th = "## Tradeoffs"@;
    let dh = "## Debt"@;
    let d = e.debt;
    let tl = text_lines(e.tradeoffs);
    let dl = text_lines(d);
    let a = head_lines(e) + alt_lines(e) + seq![blank];
    let a2 = a + seq![th, blank] + tl + seq![blank];
    let after = seq![blank] + tail_lines(e, cost);
    let r = dl + after;
    let ls = flat_lines(e, cost);
    let md = crate::markdown::render(e, cost);
    lemma_render_flat(e, cost);
    assert(ls =~= a2 + (seq![dh, blank] + r));
    lemma_flat_single_lines(e, cost);
    lemma_heading_facts(dh);
    // No debt heading before its own.
    lemma_header_free_upto(e, cost, th, dh);
    assert(a.push(th) =~= head_lines(e) + (alt_lines(e) + seq![blank, th]));
    let y = seq![th, blank] + tl + seq![blank];
    assert(no_line_ends(seq![th, blank], dh));
    assert(no_line_ends(seq![blank], dh));
    lemma_no_line_ends_concat(seq![th, blank], tl, dh);
    lemma_no_line_ends_concat(seq![th, blank] + tl, seq![blank], dh);
    lemma_header_free_push(y, dh, dh);
    assert(y.push(dh)[0] == th);
    lemma_header_free_append(a, y.push(dh), dh);
    assert(a2.push(dh) =~= a + y.push(dh));
    lemma_heading_at(a2, dh, r);
    crate::text::lemma_find_header(ls, dh);
    assert("## Debt\n\n"@ =~= dh + seq!['\n', '\n']);
    let start = join_lines(a2).len() as int;
    assert(find(md, "## Debt\n\n"@) == Some(start));
    // What follows it.
    lemma_after_heading(a2, dh, r);
    let rest = crate::markdown::after(md, start, "## Debt\n\n"@);
    assert(rest == join_lines(r));
    // Where the section ends.
    assert(ls =~= (a2 + seq![dh, blank]) + r);
    lemma_single_suffix(a2 + seq![dh, blank], r);
    assert("\n## "@ =~= seq!['\n'] + "## "@);
    assert("\n**"@ =~= seq!['\n'] + "**"@);
    assert(single_line("## "@));
    assert(single_line("**"@));
    crate::text::lemma_find_break(r, "## "@);
    crate::text::lemma_find_break(r, "**"@);
    lemma_text_lines(d);
    if e.files_changed.len() > 0 {
        assert(after[0] == blank);
        assert(after[1] == "## Files Changed"@);
        assert("## Files Changed"@.subrange(0, 3) =~= "## "@);
        lemma_break_after(dl, after, "## "@);
        assert(find(rest, "\n## "@) == Some(join_lines(dl).len() as int));
    } else {
        let tst = crate::markdown::tests_line(e.tests_passed);
        let cl = crate::markdown::cost_line(cost);
        assert(after =~= seq![blank, tst, blank, cl]);
        assert(tst[0] == '*');
        assert(cl[0] == '*');
        assert forall|k: int| 1 <= k < r.len() implies !starts_with(#[trigger] r[k], "## "@) by {
            if k < dl.len() {
                assert(r[k] == dl[k]);
            } else {
                assert(r[k] == after[k - dl.len()]);
                if k - dl.len() == 1 || k - dl.len() == 3 {
                    assert(r[k][0] == '*');
                    assert(r[k].subrange(0, 3)[0] == '*');
                }
            }
        }
        lemma_break_none(r, "## "@);
        assert(tst.subrange(0, 2) =~= "**"@);
        lemma_break_after(dl, after, "**"@);
        assert(find(rest, "\n**"@) == Some(join_lines(dl).len() as int));
    }
    crate::markdown::lemma_join_lines_append(dl, after);
    assert(rest.subrange(0, join_lines(dl).len() as int) =~= d.push('\n'));
    crate::text::lemma_trim_push_ws(d, '\n');
}

/// The files section of a rendering reads back as the changed files; with
/// no files there is no section, and the files read so far stay.
proof fn lemma_files_read(e: EntryView, cost: Seq<char>, current: Seq<Seq<char>>)
    requires
        round_trips(e, cost),
    ensures
        crate::markdown::files_section(crate::markdown::render(e, cost), current) == (if e.files_changed.len() > 0 {
            e.files_changed
        } else {
            current
        }),
{
    reveal_strlit("## Files Changed\n\n");
    reveal_strlit("## Tradeoffs");
    reveal_strlit("## Debt");
    reveal_strlit("## Files Changed");
    reveal_strlit("- `");
    let blank = crate::markdown::blank_line();
    let th = "## Tradeoffs"@;
    let dh = "## Debt"@;
    let fh = "## Files Changed"@;
    let tst = crate::markdown::tests_line(e.tests_passed);
    let cl = crate::markdown::cost_line(cost);
    let tl = text_lines(e.tradeoffs);
    let dl = text_lines(e.debt);
    let a = head_lines(e) + alt_lines(e) + seq![blank];
    let ls = flat_lines(e, cost);
    let md = crate::markdown::render(e, cost);
    lemma_render_flat(e, cost);
    lemma_flat_single_lines(e, cost);
    lemma_heading_facts(fh);
    lemma_header_free_upto(e, cost, th, fh);
    assert(a.push(th) =~= head_lines(e) + (alt_lines(e) + seq![blank, th]));
    assert("## Files Changed\n\n"@ =~= fh + seq!['\n', '\n']);
    crate::text::lemma_find_header(ls, fh);
    // No line before the files heading ends with it.
    let y = seq![th, blank] + tl + seq![blank, dh, blank] + dl + seq![blank];
    assert(no_line_ends(seq![th, blank], fh));
    assert(no_line_ends(seq![blank, dh, blank], fh));
    assert(no_line_ends(seq![blank], fh));
    lemma_no_line_ends_concat(seq![th, blank], tl, fh);
    lemma_no_line_ends_concat(seq![th, blank] + tl, seq![blank, dh, blank], fh);
    lemma_no_line_ends_concat(seq![th, blank] + tl + seq![blank, dh, blank], dl, fh);
    lemma_no_line_ends_concat(seq![th, blank] + tl + seq![blank, dh, blank] + dl, seq![blank], fh);
    if e.files_changed.len() > 0 {
        let fl = e.files_changed.map_values(|f: Seq<char>| crate::markdown::file_line(f));
        let rest = seq![blank, tst, blank, cl];
        let r = fl + rest;
        let a3 = a + y;
        assert(ls =~= a3 + (seq![fh, blank] + r));
        lemma_header_free_push(y, fh, fh);
        assert(y.push(fh)[0] == th);
        lemma_header_free_append(a, y.push(fh), fh);
        assert(a3.push(fh) =~= a + y.push(fh));
        lemma_heading_at(a3, fh, r);
        let start = join_lines(a3).len() as int;
        assert(find(md, "## Files Changed\n\n"@) == Some(start));
        lemma_after_heading(a3, fh, r);
        assert(crate::markdown::after(md, start, "## Files Changed\n\n"@) == join_lines(r));
        assert(ls =~= (a3 + seq![fh, blank]) + r);
        lemma_single_suffix(a3 + seq![fh, blank], r);
        crate::text::lemma_lines_of_join(r);
        let m = r.map_values(|l: Seq<char>| crate::text::strip_cr(l));
        let mrest = rest.map_values(|l: Seq<char>| crate::text::strip_cr(l));
        assert forall|i: int| 0 <= i < fl.len() implies m[i] == fl[i] by {
            assert(fl[i] == crate::markdown::file_line(e.files_changed[i]));
            assert(file_round_trips(e.files_changed[i]));
            lemma_file_of_line(e.files_changed[i]);
        }
        assert(m =~= fl + mrest);
        assert(mrest[0] == blank);
        lemma_file_entries(e.files_changed, mrest);
    } else {
        let z = y + seq![tst, blank];
        assert(no_line_ends(seq![tst, blank], fh));
        lemma_no_line_ends_concat(y, seq![tst, blank], fh);
        assert(ls =~= a + z.push(cl));
        lemma_header_free_push(z, cl, fh);
        assert(z.push(cl)[0] == th);
        lemma_header_free_append(a, z.push(cl), fh);
        lemma_header_pos_none(ls, fh);
    }
}

/// The cost line of a rendering reads back as the cost text.
proof fn lemma_cost_read(e: EntryView, cost: Seq<char>)
    requires
        round_trips(e, cost),
    ensures
        crate::markdown::cost_text(crate::markdown::render(e, cost)) == Some(cost),
{
    let ls = flat_lines(e, cost);
    let cl = crate::markdown::cost_line(cost);
    lemma_render_flat(e, cost);
    lemma_flat_single_lines(e, cost);
    crate::text::lemma_lines_of_join(ls);
    lemma_last_cost_strip_cr(ls, None);
    assert(ls.last() == cl);
    assert(ls =~= ls.drop_last() + seq![cl]);
    lemma_last_cost_append(ls.drop_last(), seq![cl], None);
    lemma_apply_cost(e, cost);
    let one = seq![cl];
    assert(one.drop_first() =~= Seq::<Seq<char>>::empty());
    assert(one[0] == cl);
    let label = "**Conservation Cost:**"@;
    assert(starts_with(trim(cl), label));
    assert(field_value(trim(cl), label) == cost);
    let before = last_cost(ls.drop_last(), None);
    assert(last_cost(one, before) == last_cost(one.drop_first(), Some(cost)));
}

/// Reading back what was rendered: the markdown of an entry whose texts
/// round-trip (see `round_trips`) reads back as the same entry, but for the
/// cost, which the reader leaves at its default, and the timestamp, which
/// it takes from the identifier; the cost text reads back as written.
pub proof fn lemma_markdown_round_trip(e: EntryView, cost: Seq<char>, millis: nat, secs: u64)
    requires
        round_trips(e, cost),
    ensures
        crate::markdown::markdown_entry_at(crate::markdown::render(e, cost), millis, secs) == (
        EntryView {
            conservation_cost: 0,
            timestamp: crate::markdown::id_timestamp(e.id, secs),
            ..e
        }),
        crate::markdown::cost_text(crate::markdown::render(e, cost)) == Some(cost),
{
    let base = crate::entry::fresh_entry(""@, "unknown"@, millis, secs);
    let ls = flat_lines(e, cost);
    let md = crate::markdown::render(e, cost);
    lemma_render_flat(e, cost);
    lemma_flat_single_lines(e, cost);
    crate::text::lemma_lines_of_join(ls);
    lemma_fold_strip_cr(base, ls);
    lemma_fold_markdown(e, cost, base);
    let read = fold_lines(base, crate::text::lines(md));
    lemma_tradeoffs_read(e, cost, read.tradeoffs);
    lemma_debt_read(e, cost, read.debt);
    lemma_files_read(e, cost, read.files_changed);
    lemma_cost_read(e, cost);
    assert(read.files_changed.len() == 0);
    if e.files_changed.len() == 0 {
        assert(read.files_changed =~= e.files_changed);
    }
}

} // verus!
