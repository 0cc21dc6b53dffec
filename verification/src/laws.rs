//! What holds of the library as a whole: the promises its operations keep
//! together, proved over the same models their contracts speak of.

use vstd::prelude::*;

use crate::diff::keyvalue_diff;
use crate::edit::upserted;
use crate::kv::{distinct_keys, key_at, lemma_key_pos_unique, lookup, Entries};
use crate::kv::{has_key, key_pos};
use crate::marker::{
    first_named, lemma_first_named, parsed, parsed_all, record_text, registry, registry_text, slug_of,
    unsafe_in_name, with_registry, without_named, RecordView,
};
use crate::text::{
    is_white_space, joined, lemma_split_nonempty, lemma_words_last, lemma_split_concat, lemma_split_single, lemma_words_concat, lemma_words_lead,
    lemma_words_single, split_on, words,
};
use crate::model::EntityView;
use crate::ops::{Bucket, OpView};
use crate::rollback::{rolled_back, rolled_list, token_at};
use crate::sidecar::{fingerprint_text, lemma_section_of, section_of, Journal};
use crate::diff::{map_diff, same_map};
use crate::edit::{finished, group_for, journal_fingerprint};
use crate::matching::{
    after_stage, block_names, exact_stages, fresh_state, greedy, id_key, key_tokens, sole_pair, BlockView, StageInput,
    free_upto, link_target, pair_view, pairs_upto, state_only_new, state_only_old, state_pairs, state_wf, Confidence, Matching,
    Pair, StateView,
};
use crate::model::MapView;
use crate::ops::ops_view;
use crate::replay::{keys_distinct, lemma_compiled_rolls_back, lemma_finished_stamped, pairs_in_place, unmarked};
use crate::rollback::{
    collisions_in, lemma_undone_same_filed, marker_index, occupied, rolled_back_list, tokens_distinct, visgroup_removed,
    visgroups_undone,
};
use crate::roundtrip::{marks_apart, new_created, new_paired, old_dropped, old_paired, proper};
use crate::text::{digit, hex_digits};

verus! {

/// A tool's name, once made safe, is never empty and holds nothing that could
/// break a registry record or a keyvalue name: no white space, no `;`, no `"`.
/// Making it safe again changes nothing.
pub proof fn law_slug_is_safe(name: Seq<char>)
    ensures
        slug_of(name).len() > 0,
        forall|i: int| 0 <= i < slug_of(name).len() ==> !unsafe_in_name(#[trigger] slug_of(name)[i]),
        slug_of(slug_of(name)) == slug_of(name),
{
    let s = slug_of(name);
    if name.len() == 0 {
        assert(!unsafe_in_name('u') && !unsafe_in_name('n') && !unsafe_in_name('a') && !unsafe_in_name(
            'm',
        ) && !unsafe_in_name('e') && !unsafe_in_name('d'));
    }
    assert(forall|i: int| 0 <= i < s.len() ==> !unsafe_in_name(#[trigger] s[i])) by {
        if name.len() > 0 {
            assert forall|i: int| 0 <= i < s.len() implies !unsafe_in_name(#[trigger] s[i]) by {
                assert(!unsafe_in_name('_'));
            }
        }
    }
    assert(slug_of(s) =~= s);
}

proof fn lemma_first_named_props(s: Seq<RecordView>, name: Seq<char>)
    ensures
        match first_named(s, name) {
            Some(i) => 0 <= i < s.len() && s[i].name == name && forall|j: int|
                0 <= j < i ==> s[j].name != name,
            None => forall|j: int| 0 <= j < s.len() ==> s[j].name != name,
        },
{
    if exists|i: int| 0 <= i < s.len() && s[i].name == name {
        let w = choose|i: int| 0 <= i < s.len() && s[i].name == name;
        let m = least_named(s, name, w);
        lemma_first_named(s, name, m);
    }
}

/// The least position up to `w` whose record is named `name`, given one at `w`.
proof fn least_named(s: Seq<RecordView>, name: Seq<char>, w: int) -> (m: int)
    requires
        0 <= w < s.len(),
        s[w].name == name,
    ensures
        0 <= m <= w,
        s[m].name == name,
        forall|j: int| 0 <= j < m ==> s[j].name != name,
    decreases w,
{
    if exists|j: int| 0 <= j < w && s[j].name == name {
        let j = choose|j: int| 0 <= j < w && s[j].name == name;
        least_named(s, name, j)
    } else {
        w
    }
}

/// After a tool writes its record into the registry, looking the tool up finds
/// exactly that record, and every other tool still finds what it found before.
pub proof fn law_upsert_then_find(s: Seq<RecordView>, r: RecordView, other: Seq<char>)
    requires
        other != r.name,
    ensures
        first_named(upserted(s, r), r.name) matches Some(i) && upserted(s, r)[i] == r,
        match first_named(s, other) {
            None => first_named(upserted(s, r), other) is None,
            Some(j) => first_named(upserted(s, r), other) == Some(j) && upserted(s, r)[j] == s[j],
        },
{
    let u = upserted(s, r);
    lemma_first_named_props(s, r.name);
    lemma_first_named_props(s, other);
    match first_named(s, r.name) {
        Some(i) => {
            assert forall|j: int| 0 <= j < i implies u[j].name != r.name by {
                assert(u[j] == s[j]);
            }
            lemma_first_named(u, r.name, i);
        },
        None => {
            assert forall|j: int| 0 <= j < s.len() implies u[j].name != r.name by {
                assert(u[j] == s[j]);
            }
            lemma_first_named(u, r.name, s.len() as int);
        },
    }
    lemma_first_named_props(u, other);
    match first_named(s, other) {
        None => {
            assert forall|q: int| 0 <= q < u.len() implies u[q].name != other by {
                if q < s.len() && u[q] != r {
                    assert(u[q] == s[q]);
                }
            }
        },
        Some(j) => {
            assert(u[j] == s[j]);
            assert forall|q: int| 0 <= q < j implies u[q].name != other by {
                assert(u[q] == s[q] || u[q] == r);
            }
            lemma_first_named(u, other, j);
        },
    }
}

/// The registry with every record of `name` dropped: the other records, in
/// their order.
proof fn lemma_without_named_filter(s: Seq<RecordView>, name: Seq<char>)
    ensures
        without_named(s, name) == s.filter(|r: RecordView| r.name != name),
    decreases s.len(),
{
    reveal_with_fuel(Seq::filter, 1);
    if s.len() > 0 {
        lemma_without_named_filter(s.drop_last(), name);
    }
}

/// Rolling one tool back takes its records out of the registry and leaves the
/// records of every other tool exactly as they were, in their order; the tool
/// is no longer found there.
pub proof fn law_remove_keeps_others(s: Seq<RecordView>, name: Seq<char>)
    ensures
        without_named(s, name) == s.filter(|r: RecordView| r.name != name),
        first_named(without_named(s, name), name) is None,
{
    lemma_without_named_filter(s, name);
    let w = without_named(s, name);
    let f = s.filter(|r: RecordView| r.name != name);
    if exists|q: int| 0 <= q < w.len() && w[q].name == name {
        let q = choose|q: int| 0 <= q < w.len() && w[q].name == name;
        s.lemma_filter_pred(|r: RecordView| r.name != name, q);
    }
}

proof fn lemma_section_props(tools: Seq<Journal>, name: Seq<char>)
    ensures
        match section_of(tools, name) {
            Some(i) => 0 <= i < tools.len() && tools[i].name@ == name && forall|j: int|
                0 <= j < i ==> tools[j].name@ != name,
            None => forall|j: int| 0 <= j < tools.len() ==> tools[j].name@ != name,
        },
{
    if exists|i: int| 0 <= i < tools.len() && tools[i].name@ == name {
        let w = choose|i: int| 0 <= i < tools.len() && tools[i].name@ == name;
        let m = least_section(tools, name, w);
        lemma_section_of(tools, name, m);
    }
}

proof fn least_section(tools: Seq<Journal>, name: Seq<char>, w: int) -> (m: int)
    requires
        0 <= w < tools.len(),
        tools[w].name@ == name,
    ensures
        0 <= m <= w,
        tools[m].name@ == name,
        forall|j: int| 0 <= j < m ==> tools[j].name@ != name,
    decreases w,
{
    if exists|j: int| 0 <= j < w && tools[j].name@ == name {
        let j = choose|j: int| 0 <= j < w && tools[j].name@ == name;
        least_section(tools, name, j)
    } else {
        w
    }
}

/// The journal file's sections after a tool writes its own: over its previous
/// section, or last.
pub open spec fn with_section(tools: Seq<Journal>, j: Journal) -> Seq<Journal> {
    match section_of(tools, j.name@) {
        Some(i) => tools.update(i, j),
        None => tools.push(j),
    }
}

/// Writing a tool's section into a journal file puts that section where
/// looking the tool up finds it, and leaves every other tool's section where it
/// was.
pub proof fn law_section_upsert(tools: Seq<Journal>, j: Journal, other: Seq<char>)
    requires
        other != j.name@,
    ensures
        section_of(with_section(tools, j), j.name@) matches Some(i) && with_section(tools, j)[i] == j,
        match section_of(tools, other) {
            None => section_of(with_section(tools, j), other) is None,
            Some(k) => section_of(with_section(tools, j), other) == Some(k) && with_section(tools, j)[k]
                == tools[k],
        },
{
    let u = with_section(tools, j);
    lemma_section_props(tools, j.name@);
    lemma_section_props(tools, other);
    match section_of(tools, j.name@) {
        Some(i) => {
            assert forall|q: int| 0 <= q < i implies u[q].name@ != j.name@ by {
                assert(u[q] == tools[q]);
            }
            lemma_section_of(u, j.name@, i);
        },
        None => {
            assert forall|q: int| 0 <= q < tools.len() implies u[q].name@ != j.name@ by {
                assert(u[q] == tools[q]);
            }
            lemma_section_of(u, j.name@, tools.len() as int);
        },
    }
    lemma_section_props(u, other);
    match section_of(tools, other) {
        None => {
            assert forall|q: int| 0 <= q < u.len() implies u[q].name@ != other by {
                if q < tools.len() && u[q] != j {
                    assert(u[q] == tools[q]);
                }
            }
        },
        Some(k) => {
            assert(u[k] == tools[k]);
            assert forall|q: int| 0 <= q < k implies u[q].name@ != other by {
                assert(u[q] == tools[q] || u[q] == j);
            }
            lemma_section_of(u, other, k);
        },
    }
}

/// A rollback leaves alone every entity that does not carry the tool's marker:
/// edits made by anyone else survive it.
pub proof fn law_unmarked_untouched(
    list: Seq<EntityView>,
    ops: Seq<OpView>,
    ix: Seq<(Seq<char>, Bucket, int)>,
    bucket: Bucket,
    i: int,
)
    requires
        0 <= i < list.len(),
        token_at(ix, bucket, i) is None,
    ensures
        rolled_list(list, ops, ix, bucket)[i] == list[i],
{
    let e = list[i];
    assert(crate::rollback::ops_at(ops, ix, bucket, i) == Seq::<OpView>::empty());
    assert(crate::undo::sorted_removals(Seq::<OpView>::empty()) == Seq::<OpView>::empty());
    assert(crate::undo::rollback_keyvalues(e.key_values, Seq::empty()) == e.key_values);
    assert(rolled_back(e, Seq::empty()) == e);
}

/// An entity whose keyvalues did not change gets no keyvalue operation.
pub proof fn law_unchanged_no_ops(e: Entries)
    requires
        distinct_keys(e),
    ensures
        keyvalue_diff(e, e) == Seq::<OpView>::empty(),
{
    lemma_undo_before_same(e, e.len() as int);
    lemma_undo_after_same(e, e.len() as int);
}

proof fn lemma_undo_before_same(e: Entries, n: int)
    requires
        distinct_keys(e),
        0 <= n <= e.len(),
    ensures
        crate::diff::undo_before(e, e, n) == Seq::<OpView>::empty(),
    decreases n,
{
    if n > 0 {
        lemma_undo_before_same(e, n - 1);
        lemma_key_pos_unique(e, e[n - 1].0, n - 1);
        assert(crate::diff::undo_entry(e, e, n - 1) =~= Seq::<OpView>::empty());
        assert(crate::diff::undo_before(e, e, n) =~= Seq::<OpView>::empty());
    }
}

proof fn lemma_undo_after_same(e: Entries, n: int)
    requires
        0 <= n <= e.len(),
    ensures
        crate::diff::undo_after(e, e, n) == Seq::<OpView>::empty(),
    decreases n,
{
    if n > 0 {
        lemma_undo_after_same(e, n - 1);
        assert(key_at(e, e[n - 1].0, n - 1));
    }
}

// ---------------------------------------------------------------------------
// The registry reads back what was written.
// ---------------------------------------------------------------------------

/// A word that survives a registry record: no white space and no `;`.
pub open spec fn clean_word(s: Seq<char>) -> bool {
    forall|i: int| 0 <= i < s.len() ==> !is_white_space(#[trigger] s[i]) && s[i] != ';'
}

/// The name and version a record can carry so that it reads back from its
/// text: without a version, the name is one clean word; with one, the name is
/// clean words joined by single spaces (a name written by hand, or before names
/// were made safe) and the version a clean word. No `;` anywhere.
pub open spec fn readable_fields(name: Seq<char>, version: Seq<char>) -> bool {
    &&& forall|i: int| 0 <= i < name.len() ==> #[trigger] name[i] != ';'
    &&& version.len() == 0 ==> name.len() > 0 && clean_word(name)
    &&& version.len() > 0 ==> clean_word(version) && words(name).len() >= 1 && joined(words(name), seq![' ']) == name
}

/// A record the registry can hold: readable fields and a fingerprint that is
/// one clean word. These are the records that reading a registry produces.
pub open spec fn readable_record(r: RecordView) -> bool {
    &&& r.fingerprint.len() > 0
    &&& clean_word(r.fingerprint)
    &&& readable_fields(r.name, r.version)
}

proof fn lemma_clean_words(s: Seq<char>)
    requires
        s.len() > 0,
        clean_word(s),
    ensures
        words(s) == seq![s],
{
    assert forall|i: int| 0 <= i < s.len() implies !is_white_space(#[trigger] s[i]) by {}
    lemma_words_single(s);
}

/// A record reads back from its own text, and that text holds no `;`.
pub proof fn law_record_reads_back(r: RecordView)
    requires
        readable_record(r),
    ensures
        parsed(record_text(r)) == Some(r),
        forall|i: int| 0 <= i < record_text(r).len() ==> record_text(r)[i] != ';',
{
    let t = record_text(r);
    lemma_clean_words(r.fingerprint);
    if r.version.len() == 0 {
        lemma_clean_words(r.name);
        lemma_words_concat(r.name, r.fingerprint);
        assert(words(t) =~= seq![r.name, r.fingerprint]);
        assert(r.version =~= Seq::<char>::empty());
    } else {
        lemma_clean_words(r.version);
        let wn = words(r.name);
        lemma_words_concat(r.name, r.version);
        lemma_words_concat(r.name + seq![' '] + r.version, r.fingerprint);
        assert(words(t) =~= wn + seq![r.version, r.fingerprint]);
        let w = words(t);
        assert(w.subrange(0, w.len() - 2) =~= wn);
    }
    assert forall|i: int| 0 <= i < t.len() implies t[i] != ';' by {
        if r.version.len() == 0 {
            if i < r.name.len() {
                assert(t[i] == r.name[i]);
            } else if i > r.name.len() {
                assert(t[i] == r.fingerprint[i - r.name.len() - 1]);
            }
        } else {
            let nv = r.name.len() + 1 + r.version.len();
            if i < r.name.len() {
                assert(t[i] == r.name[i]);
            } else if r.name.len() < i < nv {
                assert(t[i] == r.version[i - r.name.len() - 1]);
            } else if i > nv {
                assert(t[i] == r.fingerprint[i - nv - 1]);
            }
        }
    }
}

proof fn lemma_words_clean(s: Seq<char>)
    requires
        forall|i: int| 0 <= i < s.len() ==> s[i] != ';',
    ensures
        forall|k: int| 0 <= k < words(s).len() ==> (#[trigger] words(s)[k]).len() > 0 && clean_word(words(s)[k]),
    decreases s.len(),
{
    if s.len() > 0 {
        let d = s.drop_last();
        assert forall|i: int| 0 <= i < d.len() implies d[i] != ';' by {
            assert(d[i] == s[i]);
        }
        lemma_words_clean(d);
        let prev = words(d);
        let c = s.last();
        assert(c == s[s.len() - 1]);
        if !is_white_space(c) && !(s.len() == 1 || is_white_space(d.last())) {
            lemma_words_last(d);
            let w = prev.last().push(c);
            assert(prev.last() == prev[prev.len() - 1]);
            assert forall|i: int| 0 <= i < w.len() implies !is_white_space(#[trigger] w[i]) && w[i] != ';' by {
                if i < w.len() - 1 {
                    assert(w[i] == prev[prev.len() - 1][i]);
                }
            }
        }
    }
}

proof fn lemma_words_of_joined(ws: Seq<Seq<char>>)
    requires
        ws.len() >= 1,
        forall|k: int| 0 <= k < ws.len() ==> (#[trigger] ws[k]).len() > 0 && clean_word(ws[k]),
    ensures
        words(joined(ws, seq![' '])) == ws,
        forall|i: int| 0 <= i < joined(ws, seq![' ']).len() ==> joined(ws, seq![' '])[i] != ';',
    decreases ws.len(),
{
    if ws.len() == 1 {
        lemma_clean_words(ws[0]);
        assert(seq![ws[0]] =~= ws);
    } else {
        let dl = ws.drop_last();
        assert forall|k: int| 0 <= k < dl.len() implies (#[trigger] dl[k]).len() > 0 && clean_word(dl[k]) by {
            assert(dl[k] == ws[k]);
        }
        lemma_words_of_joined(dl);
        let l = ws[ws.len() - 1];
        assert(ws.last() == l);
        assert(l.len() > 0 && clean_word(l));
        lemma_clean_words(l);
        lemma_words_concat(joined(dl, seq![' ']), l);
        assert(joined(ws, seq![' ']) == joined(dl, seq![' ']) + seq![' '] + l);
        assert(dl + seq![l] =~= ws);
        let j = joined(ws, seq![' ']);
        let jd = joined(dl, seq![' ']);
        assert forall|i: int| 0 <= i < j.len() implies j[i] != ';' by {
            if i < jd.len() {
                assert(j[i] == jd[i]);
            } else if i > jd.len() {
                assert(j[i] == l[i - jd.len() - 1]);
            }
        }
    }
}

/// Every record read from a text without `;` is one the registry can hold:
/// reading and writing records loses nothing, names with spaces included.
pub proof fn law_parsed_records_readable(text: Seq<char>)
    requires
        forall|i: int| 0 <= i < text.len() ==> text[i] != ';',
        parsed(text) is Some,
    ensures
        readable_record(parsed(text)->Some_0),
{
    let w = words(text);
    lemma_words_clean(text);
    let r = parsed(text)->Some_0;
    assert(w[w.len() - 1].len() > 0 && clean_word(w[w.len() - 1]));
    if w.len() == 2 {
        assert(w[0].len() > 0 && clean_word(w[0]));
    } else {
        let ns = w.subrange(0, w.len() - 2);
        assert forall|k: int| 0 <= k < ns.len() implies (#[trigger] ns[k]).len() > 0 && clean_word(ns[k]) by {
            assert(ns[k] == w[k]);
        }
        lemma_words_of_joined(ns);
        assert(w[w.len() - 2].len() > 0 && clean_word(w[w.len() - 2]));
    }
}

proof fn lemma_split_pieces(s: Seq<char>, sep: char)
    ensures
        forall|k: int, i: int| 0 <= k < split_on(s, sep).len() && 0 <= i < split_on(s, sep)[k].len() ==> #[trigger] split_on(s, sep)[k][i] != sep,
    decreases s.len(),
{
    if s.len() > 0 {
        lemma_split_pieces(s.drop_last(), sep);
        lemma_split_nonempty(s.drop_last(), sep);
        let prev = split_on(s.drop_last(), sep);
        let cur = split_on(s, sep);
        assert forall|k: int, i: int| 0 <= k < cur.len() && 0 <= i < cur[k].len() implies #[trigger] cur[k][i] != sep by {
            if s.last() != sep && k == prev.len() - 1 && i == prev.last().len() {
                assert(cur[k][i] == s.last());
            } else if k < prev.len() {
                assert(cur[k][i] == prev[k][i]);
            }
        }
    }
}

proof fn lemma_parsed_all_readable(pieces: Seq<Seq<char>>)
    requires
        forall|k: int, i: int| 0 <= k < pieces.len() && 0 <= i < pieces[k].len() ==> #[trigger] pieces[k][i] != ';',
    ensures
        forall|k: int| 0 <= k < parsed_all(pieces).len() ==> readable_record(#[trigger] parsed_all(pieces)[k]),
    decreases pieces.len(),
{
    if pieces.len() > 0 {
        let dl = pieces.drop_last();
        assert forall|k: int, i: int| 0 <= k < dl.len() && 0 <= i < dl[k].len() implies #[trigger] dl[k][i] != ';' by {
            assert(dl[k][i] == pieces[k][i]);
        }
        lemma_parsed_all_readable(dl);
        let last = pieces[pieces.len() - 1];
        assert(pieces.last() == last);
        if parsed(last) is Some {
            assert forall|i: int| 0 <= i < last.len() implies last[i] != ';' by {
                assert(pieces[pieces.len() - 1][i] != ';');
            }
            law_parsed_records_readable(last);
        }
        let prev = parsed_all(dl);
        let cur = parsed_all(pieces);
        assert forall|k: int| 0 <= k < cur.len() implies readable_record(#[trigger] cur[k]) by {
            if k < prev.len() {
                assert(cur[k] == prev[k]);
            }
        }
    }
}

/// Every record a registry holds, as it is read, is one the registry can hold.
pub proof fn law_registry_records_readable(world: Entries, key: Seq<char>)
    ensures
        forall|k: int| 0 <= k < registry(world, key).len() ==> readable_record(#[trigger] registry(world, key)[k]),
{
    match lookup(world, key) {
        None => {},
        Some(v) => {
            lemma_split_pieces(v, ';');
            lemma_parsed_all_readable(split_on(v, ';'));
        },
    }
}

proof fn lemma_without_from(s: Seq<RecordView>, name: Seq<char>)
    ensures
        forall|k: int| 0 <= k < without_named(s, name).len() ==> exists|j: int| 0 <= j < s.len() && s[j] == #[trigger] without_named(s, name)[k],
    decreases s.len(),
{
    if s.len() > 0 {
        lemma_without_from(s.drop_last(), name);
        let prev = without_named(s.drop_last(), name);
        let cur = without_named(s, name);
        assert forall|k: int| 0 <= k < cur.len() implies exists|j: int| 0 <= j < s.len() && s[j] == #[trigger] cur[k] by {
            if k < prev.len() {
                let j = choose|j: int| 0 <= j < s.drop_last().len() && s.drop_last()[j] == prev[k];
                assert(s[j] == cur[k]);
            } else {
                assert(s[s.len() - 1] == cur[k]);
            }
        }
    }
}

/// After a rollback has taken a tool's records out of the registry, the
/// registry reads back as the other tools' records, in their order.
pub proof fn law_registry_after_rollback(world: Entries, key: Seq<char>, name: Seq<char>)
    requires
        distinct_keys(world),
    ensures
        registry(with_registry(world, key, without_named(registry(world, key), name)), key) == without_named(
            registry(world, key),
            name,
        ),
{
    let reg = registry(world, key);
    let kept = without_named(reg, name);
    law_registry_records_readable(world, key);
    lemma_without_from(reg, name);
    assert forall|i: int| 0 <= i < kept.len() implies readable_record(#[trigger] kept[i]) by {
        let j = choose|j: int| 0 <= j < reg.len() && reg[j] == kept[i];
    }
    law_registry_round_trip(world, key, kept);
}

/// The pieces a registry text splits into: the first record's text, then each
/// other record's text after the space that follows its separator.
pub open spec fn spaced(texts: Seq<Seq<char>>) -> Seq<Seq<char>> {
    Seq::new(texts.len(), |i: int| if i == 0 { texts[0] } else { seq![' '] + texts[i] })
}

proof fn lemma_split_joined(texts: Seq<Seq<char>>)
    requires
        texts.len() >= 1,
        forall|i: int, j: int| 0 <= i < texts.len() && 0 <= j < texts[i].len() ==> texts[i][j] != ';',
    ensures
        split_on(joined(texts, seq![';', ' ']), ';') == spaced(texts),
    decreases texts.len(),
{
    if texts.len() == 1 {
        assert forall|j: int| 0 <= j < texts[0].len() implies texts[0][j] != ';' by {}
        lemma_split_single(texts[0], ';');
        assert(spaced(texts) =~= seq![texts[0]]);
    } else {
        let dl = texts.drop_last();
        lemma_split_joined(dl);
        let y = seq![' '] + texts.last();
        assert(joined(dl, seq![';', ' ']) + seq![';', ' '] + texts.last() =~= joined(dl, seq![';', ' '])
            + seq![';'] + y);
        lemma_split_concat(joined(dl, seq![';', ' ']), y, ';');
        assert forall|j: int| 0 <= j < y.len() implies y[j] != ';' by {
            if j > 0 {
                assert(y[j] == texts[texts.len() - 1][j - 1]);
            }
        }
        lemma_split_single(y, ';');
        assert(spaced(texts) =~= spaced(dl) + seq![y]);
    }
}

proof fn lemma_parse_spaced(marks: Seq<RecordView>, n: int)
    requires
        0 <= n <= marks.len(),
        forall|i: int| 0 <= i < marks.len() ==> readable_record(#[trigger] marks[i]),
    ensures
        parsed_all(spaced(marks.map_values(|r: RecordView| record_text(r))).subrange(0, n)) == marks.subrange(0, n),
    decreases n,
{
    let texts = marks.map_values(|r: RecordView| record_text(r));
    let p = spaced(texts);
    if n == 0 {
        assert(p.subrange(0, 0) =~= Seq::<Seq<char>>::empty());
        assert(marks.subrange(0, 0) =~= Seq::<RecordView>::empty());
    } else {
        lemma_parse_spaced(marks, n - 1);
        assert(p.subrange(0, n).drop_last() =~= p.subrange(0, n - 1));
        assert(readable_record(marks[n - 1]));
        law_record_reads_back(marks[n - 1]);
        if n - 1 > 0 {
            lemma_words_lead(record_text(marks[n - 1]));
            assert(p[n - 1] == seq![' '] + record_text(marks[n - 1]));
        }
        assert(parsed(p[n - 1]) == Some(marks[n - 1]));
        assert(marks.subrange(0, n) =~= marks.subrange(0, n - 1).push(marks[n - 1]));
    }
}

/// Reading the registry back after writing it gives the records written, in
/// order, as long as each is a record the registry can hold and no key of
/// `world` occurs twice. Every record read from a registry is such a record,
/// names with spaces included (`law_registry_records_readable`).
pub proof fn law_registry_round_trip(world: Entries, key: Seq<char>, marks: Seq<RecordView>)
    requires
        distinct_keys(world),
        forall|i: int| 0 <= i < marks.len() ==> readable_record(#[trigger] marks[i]),
    ensures
        registry(with_registry(world, key, marks), key) == marks,
{
    let w2 = with_registry(world, key, marks);
    if marks.len() == 0 {
        if has_key(world, key) {
            let p = key_pos(world, key);
            if has_key(w2, key) {
                let q = choose|q: int| key_at(w2, key, q);
                if q < p {
                    assert(w2[q] == world[q]);
                } else {
                    assert(w2[q] == world[q + 1]);
                }
            }
        }
        assert(registry(w2, key) =~= marks);
    } else {
        let text = registry_text(marks);
        if has_key(world, key) {
            let p = key_pos(world, key);
            assert(distinct_keys(w2)) by {
                assert forall|i: int, j: int|
                    0 <= i < w2.len() && 0 <= j < w2.len() && i != j implies w2[i].0 != w2[j].0 by {
                    assert(w2[i].0 == world[i].0 && w2[j].0 == world[j].0);
                }
            }
            lemma_key_pos_unique(w2, key, p);
        } else {
            assert(distinct_keys(w2)) by {
                assert forall|i: int, j: int|
                    0 <= i < w2.len() && 0 <= j < w2.len() && i != j implies w2[i].0 != w2[j].0 by {
                    if i < world.len() && j < world.len() {
                    } else if i < world.len() {
                        assert(!key_at(world, key, i));
                    } else {
                        assert(!key_at(world, key, j));
                    }
                }
            }
            lemma_key_pos_unique(w2, key, world.len() as int);
        }
        assert(lookup(w2, key) == Some(text));
        let texts = marks.map_values(|r: RecordView| record_text(r));
        assert forall|i: int, j: int| 0 <= i < texts.len() && 0 <= j < texts[i].len() implies texts[i][j] != ';' by {
            assert(readable_record(marks[i]));
            law_record_reads_back(marks[i]);
        }
        lemma_split_joined(texts);
        lemma_parse_spaced(marks, marks.len() as int);
        assert(spaced(texts).subrange(0, marks.len() as int) =~= spaced(texts));
        assert(marks.subrange(0, marks.len() as int) =~= marks);
    }
}


proof fn lemma_hex_clean(h: nat, k: nat)
    ensures
        hex_digits(h, k).len() == k,
        clean_word(hex_digits(h, k)),
    decreases k,
{
    if k > 0 {
        lemma_hex_clean(h / 16, (k - 1) as nat);
        let d = h % 16;
        let c = digit(d);
        if d < 10 {
            assert(48 <= c as nat <= 57);
        } else {
            assert(97 <= c as nat <= 102);
        }
        assert(!is_white_space(c) && c != ';');
        let s = hex_digits(h, k);
        assert forall|i: int| 0 <= i < s.len() implies !is_white_space(#[trigger] s[i]) && s[i] != ';' by {
            if i < k - 1 {
                assert(s[i] == hex_digits(h / 16, (k - 1) as nat)[i]);
            }
        }
    }
}

/// `world` holds no registry under `key`, or one in the form the ledger writes
/// it; either way none of its records is the tool's.
pub open spec fn registry_ready(world: Entries, key: Seq<char>, name: Seq<char>) -> bool {
    let reg = registry(world, key);
    &&& first_named(reg, name) is None
    &&& has_key(world, key) ==> {
        &&& reg.len() > 0
        &&& lookup(world, key) == Some(registry_text(reg))
    }
}

proof fn lemma_without_absent(s: Seq<RecordView>, name: Seq<char>)
    requires
        forall|i: int| 0 <= i < s.len() ==> (#[trigger] s[i]).name != name,
    ensures
        without_named(s, name) == s,
    decreases s.len(),
{
    if s.len() > 0 {
        assert(s[s.len() - 1].name != name);
        lemma_without_absent(s.drop_last(), name);
        assert(s.drop_last().push(s.last()) =~= s);
    }
}

/// Writing a tool's record into a `world` whose registry is ready for it, then
/// taking it out again, gives `world` back; in between the record is the first
/// of its name, after the records of the other tools.
proof fn lemma_world_round_trip(world: Entries, key: Seq<char>, rec: RecordView)
    requires
        distinct_keys(world),
        registry_ready(world, key, rec.name),
        readable_record(rec),
    ensures
        ({
            let reg = registry(world, key);
            let sealed = with_registry(world, key, upserted(reg, rec));
            let marks = registry(sealed, key);
            &&& marks == reg.push(rec)
            &&& first_named(marks, rec.name) == Some(reg.len() as int)
            &&& with_registry(sealed, key, without_named(marks, rec.name)) == world
        }),
{
    let reg = registry(world, key);
    if !has_key(world, key) {
        assert(reg == Seq::<RecordView>::empty());
    }
    law_registry_records_readable(world, key);
    let all = reg.push(rec);
    assert(upserted(reg, rec) == all);
    let sealed = with_registry(world, key, all);
    assert forall|i: int| 0 <= i < all.len() implies readable_record(#[trigger] all[i]) by {
        if i < reg.len() {
            assert(all[i] == reg[i]);
        }
    }
    law_registry_round_trip(world, key, all);
    assert forall|j: int| 0 <= j < reg.len() implies (#[trigger] reg[j]).name != rec.name by {}
    lemma_first_named(all, rec.name, reg.len() as int);
    assert(all.drop_last() =~= reg);
    lemma_without_absent(reg, rec.name);
    assert(without_named(all, rec.name) == reg);
    let text = registry_text(all);
    if has_key(world, key) {
        let p = key_pos(world, key);
        assert(sealed == world.update(p, (key, text)));
        lemma_key_pos_unique(world, key, p);
        assert(key_at(sealed, key, p));
        assert forall|i: int| key_at(sealed, key, i) implies i == p by {
            if i != p {
                assert(key_at(world, key, i));
            }
        }
        assert(key_pos(sealed, key) == p);
        assert(world[p] == (key, registry_text(reg)));
        assert(sealed.update(p, (key, registry_text(reg))) =~= world);
    } else {
        assert(sealed == world.push((key, text)));
        assert(key_at(sealed, key, world.len() as int));
        assert forall|i: int| key_at(sealed, key, i) implies i == world.len() by {
            if i < world.len() {
                assert(key_at(world, key, i));
            }
        }
        assert(key_pos(sealed, key) == world.len());
        assert(sealed.remove(world.len() as int) =~= world);
    }
}

/// Compiling a map and rolling it back gives the map as it was.
///
/// Take the pristine map `o` and the tool's working map `w`, matched so that
/// every entity is either paired, in order, or listed as deleted or created,
/// with nothing untracked. Let `compiled` and `journal` be what finishing the
/// edit yields and `sealed` the compiled map with the tool's record, carrying
/// the journal's fingerprint, written into its registry. Then rolling `sealed`
/// back with that journal and fingerprint finds the tool's record, one marker
/// per entity and nothing in the way, and leaves both entity lists exactly as
/// they were in `o`, `world` as the tool found it, with the same keyvalues as in
/// `o`, and the visgroup list as the tool found it.
///
/// This holds as long as the tool kept each entity it kept in place (its
/// kept keys in order, connections in the form the file writes them, nothing
/// outside keyvalues and connections changed), no entity of `o` carried the
/// tool's marker beforehand, no key occurs twice in an entity (as in any map
/// read from a file), the registry in
/// `world` is ready for the tool's record (none yet, or other tools' records
/// only, written as the ledger writes them), the tool's name and version are
/// fields a record can carry, and, where the edit made a visgroup, nobody in `o`
/// was already filed under the id it took.
pub proof fn law_compile_then_rollback(
    o: MapView,
    w: MapView,
    me: Matching,
    mh: Matching,
    opts: crate::LedgerOptions,
    compiled: MapView,
    journal: Journal,
    json: Seq<u8>,
    sealed: MapView,
)
    requires
        proper(me, o.entities.len() as int, w.entities.len() as int),
        proper(mh, o.hiddens.len() as int, w.hiddens.len() as int),
        map_diff(o, w, me, mh).untracked.len() == 0,
        pairs_in_place(o.entities, w.entities, me, opts.marker_key@),
        pairs_in_place(o.hiddens, w.hiddens, mh, opts.marker_key@),
        unmarked(o, opts.marker_key@),
        keys_distinct(w),
        distinct_keys(w.world),
        registry_ready(w.world, opts.world_key@, opts.name@),
        readable_fields(opts.name@, opts.version@),
        group_for(w.rest, opts.visgroup, map_diff(o, w, me, mh).ops) matches Some((id, true)) ==> !occupied(o, id),
        finished(w, map_diff(o, w, me, mh), opts, compiled, journal),
        sealed.entities == compiled.entities,
        sealed.hiddens == compiled.hiddens,
        sealed.solid_visgroups == compiled.solid_visgroups,
        sealed.rest == compiled.rest,
        sealed.world == with_registry(
            compiled.world,
            opts.world_key@,
            upserted(
                registry(compiled.world, opts.world_key@),
                RecordView {
                    name: opts.name@,
                    version: opts.version@,
                    fingerprint: journal_fingerprint(journal, json),
                },
            ),
        ),
    ensures
        ({
            let marks = registry(sealed.world, opts.world_key@);
            let ix = marker_index(sealed, journal.marker_key@);
            let ov = ops_view(journal.ops@);
            &&& first_named(marks, journal.name@) matches Some(i) && marks[i].fingerprint == journal_fingerprint(
                journal,
                json,
            )
            &&& tokens_distinct(ix)
            &&& collisions_in(sealed, ix, ov).len() == 0
            &&& rolled_back_list(sealed.entities, ov, ix, Bucket::Entity, journal.marker_key@) == o.entities
            &&& rolled_back_list(sealed.hiddens, ov, ix, Bucket::Hidden, journal.marker_key@) == o.hiddens
            &&& with_registry(sealed.world, opts.world_key@, without_named(marks, journal.name@)) == w.world
            &&& same_map(o.world, w.world)
            &&& forall|filed: MapView|
                filed.entities == o.entities && filed.hiddens == o.hiddens && filed.solid_visgroups
                    == sealed.solid_visgroups ==> #[trigger] visgroups_undone(sealed.rest, filed, journal.visgroups@) == w.rest
        }),
{
    let d = map_diff(o, w, me, mh);
    let mk = opts.marker_key@;
    // the lists
    assert(marks_apart(d.marks) ==> {
        &&& crate::replay::stamped_list(sealed.entities, w.entities, d.marks, Bucket::Entity, mk, d.ops)
        &&& crate::replay::stamped_list(sealed.hiddens, w.hiddens, d.marks, Bucket::Hidden, mk, d.ops)
    }) by {
        if marks_apart(d.marks) {
            lemma_finished_stamped(w, d, opts, compiled, journal);
        }
    }
    lemma_compiled_rolls_back(o, w, me, mh, sealed, mk);
    assert(ops_view(journal.ops@) == d.ops);
    // the registry
    let rec = RecordView { name: opts.name@, version: opts.version@, fingerprint: journal_fingerprint(journal, json) };
    assert(journal.legacy() is None);
    lemma_hex_clean(crate::sidecar::fnv1a_spec(json) as nat, 16);
    assert(rec.fingerprint == fingerprint_text(json));
    assert(readable_record(rec));
    assert(compiled.world == w.world);
    lemma_world_round_trip(w.world, opts.world_key@, rec);
    // nothing untracked: the world keyvalues are those of `o`
    let d1 = crate::diff::bucket_diff((crate::diff::empty_diff(), 0), Bucket::Entity, o.entities, w.entities, me);
    let d2 = crate::diff::bucket_diff(d1, Bucket::Hidden, o.hiddens, w.hiddens, mh);
    let notes = crate::diff::section_notes(o, w);
    assert(d.untracked == d2.0.untracked + notes);
    assert(same_map(o.world, w.world) && o.solid_visgroups == w.solid_visgroups) by {
        if !same_map(o.world, w.world) || o.solid_visgroups != w.solid_visgroups {
            assert(notes.len() > 0);
        }
    }
    // the visgroups
    let v = journal.visgroups@;
    assert forall|filed: MapView|
        filed.entities == o.entities && filed.hiddens == o.hiddens && filed.solid_visgroups
            == sealed.solid_visgroups implies #[trigger] visgroups_undone(sealed.rest, filed, v) == w.rest by {
        lemma_undone_same_filed(sealed.rest, filed, o, v);
        match group_for(w.rest, opts.visgroup, d.ops) {
            Some((id, true)) => {
                assert(v.drop_last() =~= Seq::<crate::ops::VisgroupOp>::empty());
                assert(visgroups_undone(sealed.rest, o, v.drop_last()) == sealed.rest);
            },
            _ => {
                assert(v =~= Seq::<crate::ops::VisgroupOp>::empty());
            },
        }
    }
}


/// Compiling a map and rolling it back gives the map as it was, for the
/// matchings the matcher reads off its states (`matching::finish`, after
/// `match_exact` and `pair_scored`, which keep the states consistent), as long
/// as the pairs it found keep the order of the entities: the law above, with
/// the matchings as the cascade produces them.
pub proof fn law_matched_compile_then_rollback(
    o: MapView,
    w: MapView,
    se: StateView,
    sh: StateView,
    me: Matching,
    mh: Matching,
    opts: crate::LedgerOptions,
    compiled: MapView,
    journal: Journal,
    json: Seq<u8>,
    sealed: MapView,
)
    requires
        state_wf(se),
        state_wf(sh),
        se.partner.len() == o.entities.len() && se.taken.len() == w.entities.len(),
        sh.partner.len() == o.hiddens.len() && sh.taken.len() == w.hiddens.len(),
        read_off(me, se),
        read_off(mh, sh),
        keeps_order(se),
        keeps_order(sh),
        map_diff(o, w, me, mh).untracked.len() == 0,
        pairs_in_place(o.entities, w.entities, me, opts.marker_key@),
        pairs_in_place(o.hiddens, w.hiddens, mh, opts.marker_key@),
        unmarked(o, opts.marker_key@),
        keys_distinct(w),
        distinct_keys(w.world),
        registry_ready(w.world, opts.world_key@, opts.name@),
        readable_fields(opts.name@, opts.version@),
        group_for(w.rest, opts.visgroup, map_diff(o, w, me, mh).ops) matches Some((id, true)) ==> !occupied(o, id),
        finished(w, map_diff(o, w, me, mh), opts, compiled, journal),
        sealed.entities == compiled.entities,
        sealed.hiddens == compiled.hiddens,
        sealed.solid_visgroups == compiled.solid_visgroups,
        sealed.rest == compiled.rest,
        sealed.world == with_registry(
            compiled.world,
            opts.world_key@,
            upserted(
                registry(compiled.world, opts.world_key@),
                RecordView {
                    name: opts.name@,
                    version: opts.version@,
                    fingerprint: journal_fingerprint(journal, json),
                },
            ),
        ),
    ensures
        ({
            let marks = registry(sealed.world, opts.world_key@);
            let ix = marker_index(sealed, journal.marker_key@);
            let ov = ops_view(journal.ops@);
            &&& first_named(marks, journal.name@) matches Some(i) && marks[i].fingerprint == journal_fingerprint(
                journal,
                json,
            )
            &&& tokens_distinct(ix)
            &&& collisions_in(sealed, ix, ov).len() == 0
            &&& rolled_back_list(sealed.entities, ov, ix, Bucket::Entity, journal.marker_key@) == o.entities
            &&& rolled_back_list(sealed.hiddens, ov, ix, Bucket::Hidden, journal.marker_key@) == o.hiddens
            &&& with_registry(sealed.world, opts.world_key@, without_named(marks, journal.name@)) == w.world
            &&& same_map(o.world, w.world)
            &&& forall|filed: MapView|
                filed.entities == o.entities && filed.hiddens == o.hiddens && filed.solid_visgroups
                    == sealed.solid_visgroups ==> #[trigger] visgroups_undone(sealed.rest, filed, journal.visgroups@) == w.rest
        }),
{
    law_ordered_matching_is_proper(se, me);
    law_ordered_matching_is_proper(sh, mh);
    law_compile_then_rollback(o, w, me, mh, opts, compiled, journal, json, sealed);
}


pub(crate) proof fn lemma_pairs_upto(partner: Seq<Option<(int, Confidence)>>, n: int)
    requires
        0 <= n <= partner.len(),
    ensures
        forall|k: int| 0 <= k < pairs_upto(partner, n).len() ==> {
            let e = #[trigger] pairs_upto(partner, n)[k];
            0 <= e.0 < n && partner[e.0] == Some((e.1, e.2))
        },
        forall|k: int, l: int| 0 <= k < l < pairs_upto(partner, n).len() ==> pairs_upto(partner, n)[k].0 < pairs_upto(partner, n)[l].0,
        forall|i: int| 0 <= i < n && #[trigger] partner[i] is Some ==> exists|k: int|
            0 <= k < pairs_upto(partner, n).len() && pairs_upto(partner, n)[k].0 == i,
    decreases n,
{
    if n > 0 {
        lemma_pairs_upto(partner, n - 1);
        let prev = pairs_upto(partner, n - 1);
        let cur = pairs_upto(partner, n);
        assert forall|i: int| 0 <= i < n && #[trigger] partner[i] is Some implies exists|k: int|
            0 <= k < cur.len() && cur[k].0 == i by {
            if i < n - 1 {
                let k = choose|k: int| 0 <= k < prev.len() && prev[k].0 == i;
                assert(cur[k] == prev[k]);
            } else {
                assert(cur[cur.len() - 1].0 == i);
            }
        }
    }
}

pub(crate) proof fn lemma_free_upto(free: spec_fn(int) -> bool, n: int)
    requires
        0 <= n,
    ensures
        forall|k: int| 0 <= k < free_upto(free, n).len() ==> 0 <= #[trigger] free_upto(free, n)[k] < n && free(free_upto(free, n)[k]),
        forall|k: int, l: int| 0 <= k < l < free_upto(free, n).len() ==> free_upto(free, n)[k] < free_upto(free, n)[l],
        forall|i: int| 0 <= i < n && #[trigger] free(i) ==> exists|k: int| 0 <= k < free_upto(free, n).len() && free_upto(free, n)[k] == i,
    decreases n,
{
    if n > 0 {
        lemma_free_upto(free, n - 1);
        let prev = free_upto(free, n - 1);
        let cur = free_upto(free, n);
        assert forall|i: int| 0 <= i < n && #[trigger] free(i) implies exists|k: int| 0 <= k < cur.len() && cur[k] == i by {
            if i < n - 1 {
                let k = choose|k: int| 0 <= k < prev.len() && prev[k] == i;
                assert(cur[k] == prev[k]);
            } else {
                assert(cur[cur.len() - 1] == i);
            }
        }
    }
}

/// `m` is the matching `matching::finish` reads off the state `s`.
pub open spec fn read_off(m: Matching, s: StateView) -> bool {
    &&& m.pairs@.map_values(|p: Pair| pair_view(p)) == state_pairs(s)
    &&& m.only_old@.map_values(|i: usize| i as int) == state_only_old(s)
    &&& m.only_new@.map_values(|i: usize| i as int) == state_only_new(s)
}

/// The pairs of `s` keep the order of the blocks on both sides.
pub open spec fn keeps_order(s: StateView) -> bool {
    forall|i: int, k: int|
        0 <= i < k < s.partner.len() && s.partner[i] is Some && s.partner[k] is Some ==> link_target(
            #[trigger] s.partner[i],
        ) < link_target(#[trigger] s.partner[k])
}

/// A matching read off a consistent matcher state is proper as soon as its
/// pairs keep the order of the entities: then every entity is either paired, or
/// listed once as deleted or as created, all in ascending order.
pub proof fn law_ordered_matching_is_proper(s: StateView, m: Matching)
    requires
        state_wf(s),
        read_off(m, s),
        keeps_order(s),
    ensures
        proper(m, s.partner.len() as int, s.taken.len() as int),
{
    reveal(proper);
    let (n_old, n_new) = (s.partner.len() as int, s.taken.len() as int);
    let ps = state_pairs(s);
    let fo = |i: int| s.partner[i] is None;
    let fn_ = |j: int| !s.taken[j];
    lemma_pairs_upto(s.partner, n_old);
    lemma_free_upto(fo, n_old);
    lemma_free_upto(fn_, n_new);
    let p = m.pairs@;
    let oo = m.only_old@;
    let on = m.only_new@;
    assert forall|k: int| 0 <= k < p.len() implies (p[k].old as int, p[k].new as int, p[k].confidence) == #[trigger] ps[k] by {
        assert(m.pairs@.map_values(|q: Pair| pair_view(q))[k] == pair_view(p[k]));
    }
    assert forall|r: int| 0 <= r < oo.len() implies oo[r] as int == #[trigger] state_only_old(s)[r] by {
        assert(m.only_old@.map_values(|i: usize| i as int)[r] == oo[r] as int);
    }
    assert forall|r: int| 0 <= r < on.len() implies on[r] as int == #[trigger] state_only_new(s)[r] by {
        assert(m.only_new@.map_values(|i: usize| i as int)[r] == on[r] as int);
    }
    assert(p.len() == ps.len() && oo.len() == state_only_old(s).len() && on.len() == state_only_new(s).len()) by {
        assert(m.pairs@.map_values(|q: Pair| pair_view(q)).len() == p.len());
        assert(m.only_old@.map_values(|i: usize| i as int).len() == oo.len());
        assert(m.only_new@.map_values(|i: usize| i as int).len() == on.len());
    }
    // the pairs
    assert forall|k: int| 0 <= k < p.len() implies (#[trigger] p[k]).old < n_old && p[k].new < n_new by {
        assert(s.partner[ps[k].0] == Some((ps[k].1, ps[k].2)));
    }
    assert forall|k: int, l: int| 0 <= k < l < p.len() implies p[k].old < p[l].old && p[k].new < p[l].new by {
        let (i, i2) = (ps[k].0, ps[l].0);
        assert(s.partner[i] == Some((ps[k].1, ps[k].2)) && s.partner[i2] == Some((ps[l].1, ps[l].2)));
        assert(link_target(s.partner[i]) < link_target(s.partner[i2]));
    }
    // the deleted ones
    assert forall|r: int| 0 <= r < oo.len() implies (#[trigger] oo[r]) < n_old && !old_paired(m, oo[r] as int) by {
        assert(fo(state_only_old(s)[r]));
        if old_paired(m, oo[r] as int) {
            let k = choose|k: int| 0 <= k < p.len() && p[k].old == oo[r] as int;
            assert(ps[k].0 == oo[r] as int);
            assert(s.partner[ps[k].0] is Some);
        }
    }
    assert forall|r: int, q: int| 0 <= r < q < oo.len() implies oo[r] < oo[q] by {
        assert(oo[r] as int == state_only_old(s)[r] && oo[q] as int == state_only_old(s)[q]);
    }
    assert forall|r: int, q: int| 0 <= r < q < on.len() implies on[r] < on[q] by {
        assert(on[r] as int == state_only_new(s)[r] && on[q] as int == state_only_new(s)[q]);
    }
    // the created ones
    assert forall|r: int| 0 <= r < on.len() implies (#[trigger] on[r]) < n_new && !new_paired(m, on[r] as int) by {
        assert(fn_(state_only_new(s)[r]));
        if new_paired(m, on[r] as int) {
            let k = choose|k: int| 0 <= k < p.len() && p[k].new == on[r] as int;
            let i = ps[k].0;
            assert(s.partner[i] == Some((ps[k].1, ps[k].2)));
            assert(s.taken[link_target(s.partner[i])]);
        }
    }
    // everything is accounted for
    assert forall|i: int| 0 <= i < n_old && !old_paired(m, i) implies old_dropped(m, i) by {
        if s.partner[i] is Some {
            let k = choose|k: int| 0 <= k < ps.len() && ps[k].0 == i;
            assert(p[k].old == i);
        }
        assert(fo(i));
        let r = choose|r: int| 0 <= r < state_only_old(s).len() && state_only_old(s)[r] == i;
        assert(oo[r] as int == i);
    }
    assert forall|j: int| 0 <= j < n_new && !new_paired(m, j) implies new_created(m, j) by {
        if s.taken[j] {
            let i = choose|i: int| 0 <= i < s.partner.len() && link_target(s.partner[i]) == j;
            assert(s.partner[i] is Some);
            let k = choose|k: int| 0 <= k < ps.len() && ps[k].0 == i;
            assert(s.partner[ps[k].0] == Some((ps[k].1, ps[k].2)));
            assert(p[k].new == j);
        }
        assert(fn_(j));
        let r = choose|r: int| 0 <= r < state_only_new(s).len() && state_only_new(s)[r] == j;
        assert(on[r] as int == j);
    }
}


proof fn lemma_same_pairs_no_ops(acc: (crate::diff::DiffView, nat), bucket: Bucket, list: Seq<EntityView>, m: Matching, n: int)
    requires
        0 <= n <= m.pairs@.len(),
        forall|k: int| 0 <= k < m.pairs@.len() ==> (#[trigger] m.pairs@[k]).old == m.pairs@[k].new && m.pairs@[k].old < list.len(),
        forall|i: int| 0 <= i < list.len() ==> distinct_keys(#[trigger] list[i].key_values),
    ensures
        ({
            let d = crate::diff::diff_pairs(acc, bucket, list, list, crate::diff::pairs_of(m), n);
            d.0.ops == acc.0.ops && d.0.marks == acc.0.marks && d.1 == acc.1
        }),
    decreases n,
{
    if n > 0 {
        lemma_same_pairs_no_ops(acc, bucket, list, m, n - 1);
        let p = crate::diff::pairs_of(m)[n - 1];
        assert(p.0 == m.pairs@[n - 1].old && p.1 == m.pairs@[n - 1].new);
        let e = list[p.0];
        law_unchanged_no_ops(e.key_values);
        assert(crate::diff::pair_ops(e, e) == Seq::<OpView>::empty());
    }
}

/// A matching that pairs every entity of a list with itself and lists nothing
/// as deleted or created.
pub open spec fn identity_matching(m: Matching, n: int) -> bool {
    &&& forall|k: int| 0 <= k < m.pairs@.len() ==> (#[trigger] m.pairs@[k]).old == m.pairs@[k].new && m.pairs@[k].old < n
    &&& m.only_old@.len() == 0
    &&& m.only_new@.len() == 0
}

/// A map compared with itself, every entity paired with itself, gives no
/// operation and no marker: an unedited map has nothing to roll back.
pub proof fn law_unedited_map_no_ops(m: MapView, me: Matching, mh: Matching)
    requires
        identity_matching(me, m.entities.len() as int),
        identity_matching(mh, m.hiddens.len() as int),
        forall|i: int| 0 <= i < m.entities.len() ==> distinct_keys(#[trigger] m.entities[i].key_values),
        forall|i: int| 0 <= i < m.hiddens.len() ==> distinct_keys(#[trigger] m.hiddens[i].key_values),
    ensures
        map_diff(m, m, me, mh).ops == Seq::<OpView>::empty(),
        map_diff(m, m, me, mh).marks == Seq::<crate::diff::MarkView>::empty(),
{
    let start = (crate::diff::empty_diff(), 0nat);
    lemma_same_pairs_no_ops(start, Bucket::Entity, m.entities, me, me.pairs@.len() as int);
    let d1 = crate::diff::bucket_diff(start, Bucket::Entity, m.entities, m.entities, me);
    lemma_same_pairs_no_ops(d1, Bucket::Hidden, m.hiddens, mh, mh.pairs@.len() as int);
}


/// Each block of `v` carries an id, and no two blocks of one kind share it.
pub open spec fn ids_unique(v: Seq<BlockView>) -> bool {
    &&& forall|i: int| 0 <= i < v.len() ==> (#[trigger] key_tokens(v, id_key())[i]) is Some
    &&& forall|i: int, i2: int|
        0 <= i < v.len() && 0 <= i2 < v.len() && i != i2 && v[i].name == v[i2].name ==> #[trigger] key_tokens(
            v,
            id_key(),
        )[i] != #[trigger] key_tokens(v, id_key())[i2]
}

/// Every block paired with itself by its id.
pub open spec fn all_self_paired(s: StateView, n: int) -> bool {
    &&& s.partner.len() == n
    &&& s.taken.len() == n
    &&& forall|i: int| 0 <= i < n ==> #[trigger] s.partner[i] == Some((i, Confidence::Id))
    &&& forall|j: int| 0 <= j < n ==> #[trigger] s.taken[j]
}

proof fn lemma_greedy_full(s: StateView, no: Seq<Seq<char>>, nn: Seq<Seq<char>>, cands: Seq<(int, int)>)
    requires
        forall|i: int| 0 <= i < s.partner.len() ==> (#[trigger] s.partner[i]) is Some,
    ensures
        greedy(s, no, nn, cands) == s,
    decreases cands.len(),
{
    if cands.len() > 0 {
        lemma_greedy_full(s, no, nn, cands.drop_last());
    }
}

/// Matching an unedited list against itself, where each block carries an id no
/// other block of its kind carries, pairs every block with itself by its id;
/// the similarity stage then has nothing left to pair.
pub proof fn law_unedited_list_matches_itself(v: Seq<BlockView>, keys: Seq<Seq<char>>, cands: Seq<(int, int)>)
    requires
        ids_unique(v),
    ensures
        all_self_paired(exact_stages(v, v, None, keys), v.len() as int),
        greedy(exact_stages(v, v, None, keys), block_names(v), block_names(v), cands) == exact_stages(v, v, None, keys),
{
    let n = v.len() as int;
    let s0 = fresh_state(v.len(), v.len());
    let toks = key_tokens(v, id_key());
    let inp = StageInput { old_names: block_names(v), new_names: block_names(v), old_tokens: toks, new_tokens: toks };
    let s2 = after_stage(s0, inp, Confidence::Id);
    assert forall|i: int, j: int| 0 <= i < n && 0 <= j < n && sole_pair(s0, inp, i, j) implies j == i by {
        if j != i {
            assert(toks[i] == toks[j] && v[i].name == v[j].name);
        }
    }
    assert forall|i: int| 0 <= i < n implies sole_pair(s0, inp, i, i) by {
        assert(block_names(v)[i] == v[i].name);
        assert forall|i2: int| 0 <= i2 < s0.partner.len() && s0.partner[i2] is None && inp.old_names[i2] == inp.old_names[i]
            && #[trigger] inp.old_tokens[i2] == inp.old_tokens[i] implies i2 == i by {
            assert(block_names(v)[i2] == v[i2].name);
        }
        assert forall|j2: int| 0 <= j2 < s0.taken.len() && !s0.taken[j2] && inp.new_names[j2] == inp.new_names[i]
            && #[trigger] inp.new_tokens[j2] == inp.new_tokens[i] implies j2 == i by {
            assert(block_names(v)[j2] == v[j2].name);
        }
    }
    assert(all_self_paired(s2, n)) by {
        assert forall|i: int| 0 <= i < n implies #[trigger] s2.partner[i] == Some((i, Confidence::Id)) by {
            assert(sole_pair(s0, inp, i, i));
            let j = choose|j: int| sole_pair(s0, inp, i, j);
        }
        assert forall|j: int| 0 <= j < n implies #[trigger] s2.taken[j] by {
            assert(sole_pair(s0, inp, j, j));
        }
    }
    let sig = StageInput {
        old_names: block_names(v),
        new_names: block_names(v),
        old_tokens: crate::matching::signature_tokens(v, keys),
        new_tokens: crate::matching::signature_tokens(v, keys),
    };
    let s3 = after_stage(s2, sig, Confidence::Signature);
    assert forall|i: int, j: int| !sole_pair(s2, sig, i, j) by {}
    assert(s3.partner =~= s2.partner);
    assert(s3.taken =~= s2.taken);
    assert(exact_stages(v, v, None, keys) == s3);
    lemma_greedy_full(s3, block_names(v), block_names(v), cands);
}

proof fn lemma_identity_read_off(s: StateView, m: Matching, n: int)
    requires
        all_self_paired(s, n),
        read_off(m, s),
    ensures
        identity_matching(m, n),
{
    lemma_pairs_upto(s.partner, n);
    lemma_free_upto(|i: int| s.partner[i] is None, n);
    lemma_free_upto(|j: int| !s.taken[j], n);
    let ps = state_pairs(s);
    assert(m.pairs@.map_values(|p: Pair| pair_view(p)).len() == m.pairs@.len());
    assert forall|k: int| 0 <= k < m.pairs@.len() implies (#[trigger] m.pairs@[k]).old == m.pairs@[k].new && m.pairs@[k].old < n by {
        assert(m.pairs@.map_values(|p: Pair| pair_view(p))[k] == pair_view(m.pairs@[k]));
        assert(s.partner[ps[k].0] == Some((ps[k].1, ps[k].2)));
    }
    assert(m.only_old@.map_values(|i: usize| i as int).len() == m.only_old@.len());
    assert(m.only_new@.map_values(|i: usize| i as int).len() == m.only_new@.len());
    if state_only_old(s).len() > 0 {
        let x = state_only_old(s)[0];
        assert(s.partner[x] is None);
    }
    if state_only_new(s).len() > 0 {
        let x = state_only_new(s)[0];
        assert(!s.taken[x]);
    }
}

/// The blocks the matcher compares for a list of entities.
pub open spec fn entity_blocks(list: Seq<EntityView>) -> Seq<BlockView> {
    Seq::new(list.len(), |i: int| BlockView { name: crate::matching::entity_kind(), key_values: list[i].key_values })
}

/// A map compared with itself gives no operation and no marker, when each entity
/// carries an id no other entity of its list carries and the matchings are the
/// ones the matcher reads off its states for the map against itself.
pub proof fn law_unedited_map_matched_no_ops(
    m: MapView,
    keys: Seq<Seq<char>>,
    ce: Seq<(int, int)>,
    ch: Seq<(int, int)>,
    me: Matching,
    mh: Matching,
)
    requires
        ids_unique(entity_blocks(m.entities)),
        ids_unique(entity_blocks(m.hiddens)),
        read_off(
            me,
            greedy(
                exact_stages(entity_blocks(m.entities), entity_blocks(m.entities), None, keys),
                block_names(entity_blocks(m.entities)),
                block_names(entity_blocks(m.entities)),
                ce,
            ),
        ),
        read_off(
            mh,
            greedy(
                exact_stages(entity_blocks(m.hiddens), entity_blocks(m.hiddens), None, keys),
                block_names(entity_blocks(m.hiddens)),
                block_names(entity_blocks(m.hiddens)),
                ch,
            ),
        ),
        forall|i: int| 0 <= i < m.entities.len() ==> distinct_keys(#[trigger] m.entities[i].key_values),
        forall|i: int| 0 <= i < m.hiddens.len() ==> distinct_keys(#[trigger] m.hiddens[i].key_values),
    ensures
        map_diff(m, m, me, mh).ops == Seq::<OpView>::empty(),
        map_diff(m, m, me, mh).marks == Seq::<crate::diff::MarkView>::empty(),
{
    let ve = entity_blocks(m.entities);
    let vh = entity_blocks(m.hiddens);
    law_unedited_list_matches_itself(ve, keys, ce);
    law_unedited_list_matches_itself(vh, keys, ch);
    lemma_identity_read_off(exact_stages(ve, ve, None, keys), me, m.entities.len() as int);
    lemma_identity_read_off(exact_stages(vh, vh, None, keys), mh, m.hiddens.len() as int);
    law_unedited_map_no_ops(m, me, mh);
}

} // verus!
