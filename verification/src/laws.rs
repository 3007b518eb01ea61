//! Laws of the canonicalizer and the hierarchical hasher.
//!
//! Determinism: canonicalization and hashing are pure functions of the
//! input tree, so two runs over equal trees agree. Sensitivity: changing a
//! single leaf field changes the digest input of that leaf, and a changed
//! child digest changes the parent's digest input, while every sibling's
//! digest is untouched. Insensitivity: reordering the input yields the same
//! canonical tree. Idempotence: canonicalizing a canonical tree is a no-op.

use vstd::prelude::*;

use crate::canon::{
    canonical_course, canonical_question, canonical_question_fn, canonical_questions,
    lemma_option_eqv_properties, lemma_option_order_properties, lemma_question_eqv_properties,
    lemma_question_order_properties, lemma_trimmed_option_idempotent, option_eqv, option_order,
    question_eqv, question_order, trim_option_fn, trimmed_option, trimmed_options,
};
use crate::data::{CourseView, OptionView, QuestionView};
use crate::hashing::{
    bool_byte, concat_all, course_hash_input, hashed_course, hashed_option, hashed_question,
    opt_bytes, option_hash_input, option_hashes, question_hash_input, question_hashes,
};
use crate::order::{
    dedup_spec, dup_free, lemma_dedup_dup_free, lemma_dedup_noop, lemma_dedup_subseq,
    lemma_dup_free_permutation, lemma_map_values_multiset, lemma_sort_order_insensitive,
    lemma_sort_spec_of_sorted, lemma_sort_spec_properties, sort_spec, unambiguous,
};
use crate::text::lemma_trim_idempotent;
use vstd::seq_lib::group_to_multiset_ensures;

verus! {

// ---------------------------------------------------------------------------
// Determinism.
// ---------------------------------------------------------------------------

/// Canonicalization and hashing are pure functions of the input tree:
/// running them twice, or on two equal trees, yields identical canonical
/// ordering and identical digests throughout.
pub proof fn lemma_pipeline_deterministic(c1: CourseView, c2: CourseView)
    requires
        c1 == c2,
    ensures
        canonical_course(c1) == canonical_course(c2),
        hashed_course(canonical_course(c1)) == hashed_course(canonical_course(c2)),
{
}

// ---------------------------------------------------------------------------
// Digest-input sensitivity at the leaf.
// ---------------------------------------------------------------------------

proof fn lemma_bytes_differ_at(s1: Seq<u8>, s2: Seq<u8>) -> (p: int)
    requires
        s1.len() == s2.len(),
        s1 != s2,
    ensures
        0 <= p < s1.len(),
        s1[p] != s2[p],
{
    if forall|q: int| 0 <= q < s1.len() ==> s1[q] == s2[q] {
        assert(s1 =~= s2);
    }
    choose|p: int| 0 <= p < s1.len() && s1[p] != s2[p]
}

/// Changing an option's text changes its digest input.
pub proof fn lemma_option_input_text_sensitive(o1: OptionView, o2: OptionView)
    requires
        o1.id == o2.id,
        o1.correct == o2.correct,
        o1.explanation == o2.explanation,
        o1.text != o2.text,
    ensures
        option_hash_input(o1) != option_hash_input(o2),
{
    let i1 = option_hash_input(o1);
    let i2 = option_hash_input(o2);
    if o1.text.len() != o2.text.len() {
        assert(i1.len() != i2.len());
    } else {
        let p = lemma_bytes_differ_at(o1.text, o2.text);
        let at = o1.id.len() + p;
        assert(i1[at] == o1.text[p]);
        assert(i2[at] == o2.text[p]);
    }
}

/// Changing an option's correctness flag changes its digest input.
pub proof fn lemma_option_input_correct_sensitive(o1: OptionView, o2: OptionView)
    requires
        o1.id == o2.id,
        o1.text == o2.text,
        o1.explanation == o2.explanation,
        o1.correct != o2.correct,
    ensures
        option_hash_input(o1) != option_hash_input(o2),
{
    let at = (o1.id.len() + o1.text.len()) as int;
    assert(option_hash_input(o1)[at] == bool_byte(o1.correct));
    assert(option_hash_input(o2)[at] == bool_byte(o2.correct));
}

/// Changing an option's explanation changes its digest input, provided the
/// change shows in the explanation bytes. An explanation of empty text and
/// an absent explanation contribute the same (empty) bytes and are not
/// distinguished.
pub proof fn lemma_option_input_explanation_sensitive(o1: OptionView, o2: OptionView)
    requires
        o1.id == o2.id,
        o1.text == o2.text,
        o1.correct == o2.correct,
        opt_bytes(o1.explanation) != opt_bytes(o2.explanation),
    ensures
        option_hash_input(o1) != option_hash_input(o2),
{
    let e1 = opt_bytes(o1.explanation);
    let e2 = opt_bytes(o2.explanation);
    let i1 = option_hash_input(o1);
    let i2 = option_hash_input(o2);
    if e1.len() != e2.len() {
        assert(i1.len() != i2.len());
    } else {
        let p = lemma_bytes_differ_at(e1, e2);
        let at = o1.id.len() + o1.text.len() + 1 + p;
        assert(i1[at] == e1[p]);
        assert(i2[at] == e2[p]);
    }
}

// ---------------------------------------------------------------------------
// Digest-input sensitivity propagates upward; siblings are untouched.
// ---------------------------------------------------------------------------

proof fn lemma_concat_64_index(hs: Seq<Seq<u8>>, i: int, p: int)
    requires
        forall|t: int| 0 <= t < hs.len() ==> (#[trigger] hs[t]).len() == 64,
        0 <= i < hs.len(),
        0 <= p < 64,
    ensures
        concat_all(hs).len() == 64 * hs.len(),
        concat_all(hs)[64 * i + p] == hs[i][p],
    decreases hs.len(),
{
    lemma_concat_64_len(hs);
    if i == hs.len() - 1 {
        lemma_concat_64_len(hs.drop_last());
        assert(concat_all(hs)[64 * i + p] == hs.last()[p]);
    } else {
        lemma_concat_64_index(hs.drop_last(), i, p);
        lemma_concat_64_len(hs.drop_last());
        assert(hs.drop_last()[i] == hs[i]);
        assert(concat_all(hs)[64 * i + p] == concat_all(hs.drop_last())[64 * i + p]);
    }
}

proof fn lemma_concat_64_len(hs: Seq<Seq<u8>>)
    requires
        forall|t: int| 0 <= t < hs.len() ==> (#[trigger] hs[t]).len() == 64,
    ensures
        concat_all(hs).len() == 64 * hs.len(),
    decreases hs.len(),
{
    if hs.len() > 0 {
        lemma_concat_64_len(hs.drop_last());
    }
}

/// A changed option digest changes the owning question's digest input,
/// while every other field and sibling digest stays fixed.
pub proof fn lemma_question_input_child_sensitive(q1: QuestionView, q2: QuestionView, j: int)
    requires
        q1.id == q2.id,
        q1.text == q2.text,
        q1.image_url == q2.image_url,
        q1.evaluation == q2.evaluation,
        q1.source == q2.source,
        q1.asked_at == q2.asked_at,
        q1.question_options.len() == q2.question_options.len(),
        0 <= j < q1.question_options.len(),
        forall|i: int|
            0 <= i < q1.question_options.len() ==> (#[trigger] q1.question_options[i]).hash.len()
                == 64 && q2.question_options[i].hash.len() == 64,
        forall|i: int|
            0 <= i < q1.question_options.len() && i != j ==> (#[trigger] q1.question_options[i]).hash
                == q2.question_options[i].hash,
        q1.question_options[j].hash != q2.question_options[j].hash,
    ensures
        question_hash_input(q1) != question_hash_input(q2),
{
    let h1 = option_hashes(q1.question_options);
    let h2 = option_hashes(q2.question_options);
    assert forall|t: int| 0 <= t < h1.len() implies (#[trigger] h1[t]).len() == 64 by {
        assert(q1.question_options[t].hash.len() == 64);
    }
    assert forall|t: int| 0 <= t < h2.len() implies (#[trigger] h2[t]).len() == 64 by {
        assert(q1.question_options[t].hash.len() == 64);
        assert(q2.question_options[t].hash.len() == 64);
    }
    let p = lemma_bytes_differ_at(h1[j], h2[j]);
    lemma_concat_64_index(h1, j, p);
    lemma_concat_64_index(h2, j, p);
    let prefix = q1.id.len() + q1.text.len() + opt_bytes(q1.image_url).len();
    let at = prefix + 64 * j + p;
    assert(question_hash_input(q1)[at] == h1[j][p]);
    assert(question_hash_input(q2)[at] == h2[j][p]);
}

/// A changed question digest changes the owning course's digest input,
/// while every other field and sibling digest stays fixed.
pub proof fn lemma_course_input_child_sensitive(c1: CourseView, c2: CourseView, j: int)
    requires
        c1.key == c2.key,
        c1.name == c2.name,
        c1.short_name == c2.short_name,
        c1.aliases == c2.aliases,
        c1.year == c2.year,
        c1.evaluations == c2.evaluations,
        c1.questions.len() == c2.questions.len(),
        0 <= j < c1.questions.len(),
        forall|i: int|
            0 <= i < c1.questions.len() ==> (#[trigger] c1.questions[i]).hash.len() == 64
                && c2.questions[i].hash.len() == 64,
        forall|i: int|
            0 <= i < c1.questions.len() && i != j ==> (#[trigger] c1.questions[i]).hash
                == c2.questions[i].hash,
        c1.questions[j].hash != c2.questions[j].hash,
    ensures
        course_hash_input(c1) != course_hash_input(c2),
{
    let h1 = question_hashes(c1.questions);
    let h2 = question_hashes(c2.questions);
    assert forall|t: int| 0 <= t < h1.len() implies (#[trigger] h1[t]).len() == 64 by {
        assert(c1.questions[t].hash.len() == 64);
    }
    assert forall|t: int| 0 <= t < h2.len() implies (#[trigger] h2[t]).len() == 64 by {
        assert(c1.questions[t].hash.len() == 64);
        assert(c2.questions[t].hash.len() == 64);
    }
    let p = lemma_bytes_differ_at(h1[j], h2[j]);
    lemma_concat_64_index(h1, j, p);
    lemma_concat_64_index(h2, j, p);
    let prefix = c1.key.len() + c1.name.len() + c1.short_name.len() + concat_all(c1.aliases).len()
        + crate::hashing::year_bytes(c1.year).len();
    let at = prefix + 64 * j + p;
    assert(course_hash_input(c1)[at] == h1[j][p]);
    assert(course_hash_input(c2)[at] == h2[j][p]);
}

/// A change to one option leaves every sibling's assigned digest untouched:
/// each option's digest is a function of that option alone.
pub proof fn lemma_sibling_digests_independent(q1: QuestionView, q2: QuestionView, j: int)
    requires
        q1.question_options.len() == q2.question_options.len(),
        0 <= j < q1.question_options.len(),
        forall|i: int|
            0 <= i < q1.question_options.len() && i != j ==> #[trigger] q1.question_options[i]
                == q2.question_options[i],
    ensures
        forall|i: int|
            0 <= i < q1.question_options.len() && i != j
                ==> #[trigger] hashed_question(q1).question_options[i] == hashed_question(
                q2,
            ).question_options[i],
{
    assert forall|i: int| 0 <= i < q1.question_options.len() && i != j implies #[trigger]
        hashed_question(q1).question_options[i] == hashed_question(q2).question_options[i] by {
        assert(hashed_question(q1).question_options[i] == hashed_option(q1.question_options[i]));
        assert(hashed_question(q2).question_options[i] == hashed_option(q2.question_options[i]));
    }
}

// ---------------------------------------------------------------------------
// Insensitivity to input order.
// ---------------------------------------------------------------------------

/// Rearranging a question's options before canonicalization yields the same
/// canonical question, provided no two options are content duplicates and
/// the canonical order decides every pair (at most one correct option, and
/// no two incorrect options with equal trimmed text).
pub proof fn lemma_question_canonical_order_insensitive(q1: QuestionView, q2: QuestionView)
    requires
        q2 == (QuestionView { question_options: q2.question_options, ..q1 }),
        q1.question_options.to_multiset() == q2.question_options.to_multiset(),
        dup_free(trimmed_options(q1.question_options), option_eqv()),
        unambiguous(trimmed_options(q1.question_options), option_order()),
    ensures
        canonical_question(q1) == canonical_question(q2),
{
    broadcast use group_to_multiset_ensures;

    let o1 = trimmed_options(q1.question_options);
    let o2 = trimmed_options(q2.question_options);
    lemma_map_values_multiset(q1.question_options, q2.question_options, trim_option_fn());
    lemma_option_eqv_properties();
    lemma_option_order_properties();
    lemma_dup_free_permutation(o1, o2, option_eqv());
    lemma_dedup_noop(o1, option_eqv());
    lemma_dedup_noop(o2, option_eqv());
    assert forall|a: OptionView, b: OptionView|
        o1.contains(a) && o1.contains(b) && #[trigger] option_order()(a, b)
            && #[trigger] option_order()(b, a) implies a == b by {
        if a != b {
            let p = choose|p: int| 0 <= p < o1.len() && o1[p] == a;
            let q = choose|q: int| 0 <= q < o1.len() && o1[q] == b;
            assert(p != q);
            if p < q {
                assert(!(option_order()(o1[p], o1[q]) && option_order()(o1[q], o1[p])));
            } else {
                assert(!(option_order()(o1[q], o1[p]) && option_order()(o1[p], o1[q])));
            }
        }
    }
    lemma_sort_order_insensitive(o1, o2, option_order());
    assert(canonical_question(q1) =~~= canonical_question(q2));
}

/// Rearranging a course's questions before canonicalization yields the same
/// canonical course and hence the same digests, provided no two questions
/// are content duplicates and the canonical order decides every pair (no
/// two questions sharing evaluation, ask-date, text and identity).
pub proof fn lemma_course_canonical_order_insensitive(c1: CourseView, c2: CourseView)
    requires
        c2 == (CourseView { questions: c2.questions, ..c1 }),
        c1.questions.to_multiset() == c2.questions.to_multiset(),
        dup_free(canonical_questions(c1.questions), question_eqv()),
        unambiguous(canonical_questions(c1.questions), question_order()),
    ensures
        canonical_course(c1) == canonical_course(c2),
        hashed_course(canonical_course(c1)) == hashed_course(canonical_course(c2)),
{
    broadcast use group_to_multiset_ensures;

    let s1 = canonical_questions(c1.questions);
    let s2 = canonical_questions(c2.questions);
    lemma_map_values_multiset(c1.questions, c2.questions, canonical_question_fn());
    lemma_question_eqv_properties();
    lemma_question_order_properties();
    lemma_dup_free_permutation(s1, s2, question_eqv());
    lemma_dedup_noop(s1, question_eqv());
    lemma_dedup_noop(s2, question_eqv());
    assert forall|a: QuestionView, b: QuestionView|
        s1.contains(a) && s1.contains(b) && #[trigger] question_order()(a, b)
            && #[trigger] question_order()(b, a) implies a == b by {
        if a != b {
            let p = choose|p: int| 0 <= p < s1.len() && s1[p] == a;
            let q = choose|q: int| 0 <= q < s1.len() && s1[q] == b;
            assert(p != q);
            if p < q {
                assert(!(question_order()(s1[p], s1[q]) && question_order()(s1[q], s1[p])));
            } else {
                assert(!(question_order()(s1[q], s1[p]) && question_order()(s1[p], s1[q])));
            }
        }
    }
    lemma_sort_order_insensitive(s1, s2, question_order());
    assert(canonical_course(c1) =~~= canonical_course(c2));
}

// ---------------------------------------------------------------------------
// Idempotence.
// ---------------------------------------------------------------------------

/// Canonicalizing a canonical question is a no-op: its text is already
/// trimmed, its options already trimmed, duplicate-free and sorted.
pub proof fn lemma_canonical_question_idempotent(q: QuestionView)
    ensures
        canonical_question(canonical_question(q)) == canonical_question(q),
{
    broadcast use group_to_multiset_ensures;

    let o0 = trimmed_options(q.question_options);
    let d = dedup_spec(o0, option_eqv());
    let s = sort_spec(d, option_order());
    lemma_option_order_properties();
    lemma_option_eqv_properties();
    lemma_sort_spec_properties(d, option_order());
    lemma_dedup_subseq(o0, option_eqv());
    assert forall|i: int| 0 <= i < s.len() implies trim_option_fn()(s[i]) == s[i] by {
        assert(s.contains(s[i]));
        assert(s.to_multiset().contains(s[i]));
        assert(d.to_multiset().contains(s[i]));
        assert(d.contains(s[i]));
        let t = choose|t: int| 0 <= t < d.len() && d[t] == s[i];
        assert(o0.contains(d[t]));
        let u = choose|u: int| 0 <= u < o0.len() && o0[u] == s[i];
        assert(o0[u] == trimmed_option(q.question_options[u]));
        lemma_trimmed_option_idempotent(q.question_options[u]);
    }
    assert(trimmed_options(s) =~= s);
    lemma_dedup_dup_free(o0, option_eqv());
    lemma_dup_free_permutation(d, s, option_eqv());
    lemma_dedup_noop(s, option_eqv());
    lemma_sort_spec_of_sorted(s, option_order());
    lemma_trim_idempotent(q.text);
    assert(canonical_question(canonical_question(q)) =~~= canonical_question(q));
}

/// Canonicalizing a canonical course is a no-op: every question is already
/// canonical, and the question sequence already duplicate-free and sorted.
pub proof fn lemma_canonical_course_idempotent(c: CourseView)
    ensures
        canonical_course(canonical_course(c)) == canonical_course(c),
{
    broadcast use group_to_multiset_ensures;

    let q0 = canonical_questions(c.questions);
    let d = dedup_spec(q0, question_eqv());
    let s = sort_spec(d, question_order());
    lemma_question_order_properties();
    lemma_question_eqv_properties();
    lemma_sort_spec_properties(d, question_order());
    lemma_dedup_subseq(q0, question_eqv());
    assert forall|i: int| 0 <= i < s.len() implies canonical_question_fn()(s[i]) == s[i] by {
        assert(s.contains(s[i]));
        assert(s.to_multiset().contains(s[i]));
        assert(d.to_multiset().contains(s[i]));
        assert(d.contains(s[i]));
        let t = choose|t: int| 0 <= t < d.len() && d[t] == s[i];
        assert(q0.contains(d[t]));
        let u = choose|u: int| 0 <= u < q0.len() && q0[u] == s[i];
        assert(q0[u] == canonical_question(c.questions[u]));
        lemma_canonical_question_idempotent(c.questions[u]);
    }
    assert(canonical_questions(s) =~= s);
    lemma_dedup_dup_free(q0, question_eqv());
    lemma_dup_free_permutation(d, s, question_eqv());
    lemma_dedup_noop(s, question_eqv());
    lemma_sort_spec_of_sorted(s, question_order());
    assert(canonical_course(canonical_course(c)) =~~= canonical_course(c));
}

} // verus!
