//! The canonicalizer: deterministic ordering, duplicate collapsing and text
//! trimming, applied before hashing so that semantically equal trees hash
//! identically.
//!
//! Options are duplicates when text, correctness and explanation match;
//! questions are duplicates when text, evaluation and option set (unordered)
//! match; the first occurrence is kept. Options are ordered with the correct
//! option first and ties among incorrect options broken by text; questions
//! are ordered by evaluation, then ask-date (absent first), then text, then
//! identity. Sorting is stable, so the canonical order is a pure function of
//! the input.

use vstd::prelude::*;

use crate::data::{
    CourseData, CourseView, OptionView, QuestionData, QuestionOptionData, QuestionView,
    option_views, question_views,
};
use crate::order::{dedup_spec, lemma_insert_sorted_at, sort_spec};
use crate::text::{lemma_lex_antisymmetric, lemma_lex_total, lemma_lex_transitive, lemma_trim_idempotent};
use vstd::relations::{strongly_connected, transitive};
use crate::text::{bytes_eq, lex_leq, lex_leq_bytes, trim_bytes, trim_spec};

verus! {

// ---------------------------------------------------------------------------
// Duplicate detection.
// ---------------------------------------------------------------------------

/// Whether two options carry the same content: text, correctness flag and
/// explanation. Identity and hash play no part.
pub open spec fn option_content_eqv(a: OptionView, b: OptionView) -> bool {
    a.text == b.text && a.correct == b.correct && a.explanation == b.explanation
}

/// Whether some option of `os` carries the same content as `o`.
pub open spec fn option_in(os: Seq<OptionView>, o: OptionView) -> bool {
    exists|j: int| 0 <= j < os.len() && option_content_eqv(#[trigger] os[j], o)
}

/// Whether every option of `xs` has a content match in `ys`.
pub open spec fn options_subset(xs: Seq<OptionView>, ys: Seq<OptionView>) -> bool {
    forall|i: int| 0 <= i < xs.len() ==> option_in(ys, #[trigger] xs[i])
}

/// Whether two questions carry the same content: text, evaluation, and the
/// same options as an unordered set.
pub open spec fn question_content_eqv(a: QuestionView, b: QuestionView) -> bool {
    &&& a.text == b.text
    &&& a.evaluation == b.evaluation
    &&& a.question_options.len() == b.question_options.len()
    &&& options_subset(a.question_options, b.question_options)
    &&& options_subset(b.question_options, a.question_options)
}

/// Option duplicate detection as a relation value.
pub open spec fn option_eqv() -> spec_fn(OptionView, OptionView) -> bool {
    |a: OptionView, b: OptionView| option_content_eqv(a, b)
}

/// Question duplicate detection as a relation value.
pub open spec fn question_eqv() -> spec_fn(QuestionView, QuestionView) -> bool {
    |a: QuestionView, b: QuestionView| question_content_eqv(a, b)
}

// ---------------------------------------------------------------------------
// Canonical order.
// ---------------------------------------------------------------------------

/// Option order: the correct option first, ties among incorrect options
/// broken by text.
pub open spec fn option_leq(a: OptionView, b: OptionView) -> bool {
    if a.correct {
        true
    } else if b.correct {
        false
    } else {
        lex_leq(a.text, b.text)
    }
}

/// Question order on the keys that remain once evaluation and ask-date are
/// equal: text, then identity.
pub open spec fn question_leq_text_id(a: QuestionView, b: QuestionView) -> bool {
    if a.text != b.text {
        lex_leq(a.text, b.text)
    } else {
        lex_leq(a.id, b.id)
    }
}

/// Question order: by evaluation, then ask-date (absent first), then text,
/// then identity.
pub open spec fn question_leq(a: QuestionView, b: QuestionView) -> bool {
    if a.evaluation != b.evaluation {
        lex_leq(a.evaluation, b.evaluation)
    } else {
        match (a.asked_at, b.asked_at) {
            (None, Some(_)) => true,
            (Some(_), None) => false,
            (Some(x), Some(y)) => if x != y {
                lex_leq(x, y)
            } else {
                question_leq_text_id(a, b)
            },
            (None, None) => question_leq_text_id(a, b),
        }
    }
}

/// Option order as a relation value.
pub open spec fn option_order() -> spec_fn(OptionView, OptionView) -> bool {
    |a: OptionView, b: OptionView| option_leq(a, b)
}

/// Question order as a relation value.
pub open spec fn question_order() -> spec_fn(QuestionView, QuestionView) -> bool {
    |a: QuestionView, b: QuestionView| question_leq(a, b)
}

// ---------------------------------------------------------------------------
// The canonical form.
// ---------------------------------------------------------------------------

/// An option with its text trimmed.
pub open spec fn trimmed_option(o: OptionView) -> OptionView {
    OptionView { text: trim_spec(o.text), ..o }
}

/// Option trimming as a function value.
pub open spec fn trim_option_fn() -> spec_fn(OptionView) -> OptionView {
    |o: OptionView| trimmed_option(o)
}

/// A sequence of options with their texts trimmed.
pub open spec fn trimmed_options(os: Seq<OptionView>) -> Seq<OptionView> {
    os.map_values(trim_option_fn())
}

/// The canonical form of a question: text trimmed, options trimmed, then
/// collapsed, then sorted.
pub open spec fn canonical_question(q: QuestionView) -> QuestionView {
    QuestionView {
        text: trim_spec(q.text),
        question_options: sort_spec(
            dedup_spec(trimmed_options(q.question_options), option_eqv()),
            option_order(),
        ),
        ..q
    }
}

/// Question canonicalization as a function value.
pub open spec fn canonical_question_fn() -> spec_fn(QuestionView) -> QuestionView {
    |q: QuestionView| canonical_question(q)
}

/// A sequence of questions, each in canonical form.
pub open spec fn canonical_questions(qs: Seq<QuestionView>) -> Seq<QuestionView> {
    qs.map_values(canonical_question_fn())
}

/// The canonical form of a course: every question canonical, duplicate
/// questions collapsed, questions sorted.
pub open spec fn canonical_course(c: CourseView) -> CourseView {
    CourseView {
        questions: sort_spec(
            dedup_spec(canonical_questions(c.questions), question_eqv()),
            question_order(),
        ),
        ..c
    }
}

// ---------------------------------------------------------------------------
// Executable comparisons.
// ---------------------------------------------------------------------------

impl QuestionOptionData {
    /// Whether this option and `other` carry the same content.
    pub fn eq_data(&self, other: &QuestionOptionData) -> (r: bool)
        ensures
            r == option_content_eqv(self@, other@),
    {
        if self.correct != other.correct {
            return false;
        }
        if !bytes_eq(self.text.as_slice(), other.text.as_slice()) {
            return false;
        }
        match (&self.explanation, &other.explanation) {
            (None, None) => true,
            (Some(x), Some(y)) => bytes_eq(x.as_slice(), y.as_slice()),
            _ => false,
        }
    }
}

/// Whether `a` is ordered at or before `b` in the canonical option order.
pub fn option_le(a: &QuestionOptionData, b: &QuestionOptionData) -> (r: bool)
    ensures
        r == option_leq(a@, b@),
{
    if a.correct {
        true
    } else if b.correct {
        false
    } else {
        lex_leq_bytes(a.text.as_slice(), b.text.as_slice())
    }
}

/// Whether some option of `os` carries the same content as `o`.
fn option_list_contains(os: &Vec<QuestionOptionData>, o: &QuestionOptionData) -> (r: bool)
    ensures
        r == option_in(option_views(os@), o@),
{
    let mut i: usize = 0;
    while i < os.len()
        invariant
            i <= os@.len(),
            forall|t: int| 0 <= t < i ==> !option_content_eqv(option_views(os@)[t], o@),
        decreases os@.len() - i,
    {
        proof {
            assert(option_views(os@)[i as int] == os@[i as int]@);
        }
        if os[i].eq_data(o) {
            return true;
        }
        i = i + 1;
    }
    false
}

impl QuestionData {
    /// Whether this question and `other` carry the same content: text,
    /// evaluation, and option set up to order.
    pub fn eq_data(&self, other: &QuestionData) -> (r: bool)
        ensures
            r == question_content_eqv(self@, other@),
    {
        if !bytes_eq(self.text.as_slice(), other.text.as_slice()) {
            return false;
        }
        if !bytes_eq(self.evaluation.as_slice(), other.evaluation.as_slice()) {
            return false;
        }
        if self.question_options.len() != other.question_options.len() {
            return false;
        }
        let mut i: usize = 0;
        while i < self.question_options.len()
            invariant
                i <= self.question_options@.len(),
                forall|t: int|
                    0 <= t < i ==> option_in(
                        option_views(other.question_options@),
                        #[trigger] option_views(self.question_options@)[t],
                    ),
            decreases self.question_options@.len() - i,
        {
            proof {
                assert(option_views(self.question_options@)[i as int]
                    == self.question_options@[i as int]@);
            }
            if !option_list_contains(&other.question_options, &self.question_options[i]) {
                return false;
            }
            i = i + 1;
        }
        let mut i: usize = 0;
        while i < other.question_options.len()
            invariant
                i <= other.question_options@.len(),
                forall|t: int|
                    0 <= t < i ==> option_in(
                        option_views(self.question_options@),
                        #[trigger] option_views(other.question_options@)[t],
                    ),
            decreases other.question_options@.len() - i,
        {
            proof {
                assert(option_views(other.question_options@)[i as int]
                    == other.question_options@[i as int]@);
            }
            if !option_list_contains(&self.question_options, &other.question_options[i]) {
                return false;
            }
            i = i + 1;
        }
        true
    }
}

/// Whether `a` is ordered at or before `b` in the canonical question order.
pub fn question_le(a: &QuestionData, b: &QuestionData) -> (r: bool)
    ensures
        r == question_leq(a@, b@),
{
    if !bytes_eq(a.evaluation.as_slice(), b.evaluation.as_slice()) {
        return lex_leq_bytes(a.evaluation.as_slice(), b.evaluation.as_slice());
    }
    match (&a.asked_at, &b.asked_at) {
        (None, Some(_)) => {
            return true;
        },
        (Some(_), None) => {
            return false;
        },
        (Some(x), Some(y)) => {
            if !bytes_eq(x.as_slice(), y.as_slice()) {
                return lex_leq_bytes(x.as_slice(), y.as_slice());
            }
        },
        (None, None) => {},
    }
    if !bytes_eq(a.text.as_slice(), b.text.as_slice()) {
        return lex_leq_bytes(a.text.as_slice(), b.text.as_slice());
    }
    lex_leq_bytes(a.id.as_slice(), b.id.as_slice())
}

// ---------------------------------------------------------------------------
// Executable duplicate collapsing.
// ---------------------------------------------------------------------------

/// Collapses duplicate options, keeping the first occurrence of each
/// content class in order.
pub fn dedup_options(os: Vec<QuestionOptionData>) -> (r: Vec<QuestionOptionData>)
    ensures
        option_views(r@) == dedup_spec(option_views(os@), option_eqv()),
{
    let ghost input = option_views(os@);
    let mut out: Vec<QuestionOptionData> = Vec::new();
    let mut rest = os;
    proof {
        assert(option_views(rest@) =~= input.skip(0));
        assert(option_views(out@) =~= dedup_spec(input.take(0), option_eqv()));
    }
    while rest.len() > 0
        invariant
            rest@.len() <= input.len(),
            option_views(rest@) == input.skip(input.len() - rest@.len()),
            option_views(out@) == dedup_spec(
                input.take(input.len() - rest@.len()),
                option_eqv(),
            ),
        decreases rest@.len(),
    {
        let ghost k = input.len() - rest@.len();
        let ghost rest_pre = rest@;
        let x = rest.remove(0);
        proof {
            assert(option_views(rest_pre)[0] == x@);
            assert(x@ == input[k]);
            assert forall|t: int| 0 <= t < rest@.len() implies option_views(rest@)[t]
                == input.skip(k + 1)[t] by {
                assert(rest@[t] == rest_pre[t + 1]);
                assert(option_views(rest_pre)[t + 1] == input.skip(k as int)[t + 1]);
            }
            assert(option_views(rest@) =~= input.skip(k + 1));
        }
        let dup = option_list_contains(&out, &x);
        let ghost d = option_views(out@);
        proof {
            assert(input.take(k + 1).drop_last() =~= input.take(k as int));
            assert(input.take(k + 1).last() == input[k]);
            assert(forall|t: int|
                0 <= t < d.len() ==> option_eqv()(#[trigger] d[t], x@) == option_content_eqv(
                    d[t],
                    x@,
                ));
        }
        if !dup {
            out.push(x);
            proof {
                assert(option_views(out@) =~= d.push(input[k]));
            }
        }
        proof {
            assert(option_views(out@) == dedup_spec(input.take(k + 1), option_eqv()));
        }
    }
    proof {
        assert(input.take(input.len() as int) =~= input);
    }
    out
}

/// Whether some question of `qs` carries the same content as `q`.
fn question_list_contains(qs: &Vec<QuestionData>, q: &QuestionData) -> (r: bool)
    ensures
        r == exists|j: int|
            0 <= j < qs@.len() && question_content_eqv(#[trigger] question_views(qs@)[j], q@),
{
    let mut i: usize = 0;
    while i < qs.len()
        invariant
            i <= qs@.len(),
            forall|t: int| 0 <= t < i ==> !question_content_eqv(question_views(qs@)[t], q@),
        decreases qs@.len() - i,
    {
        proof {
            assert(question_views(qs@)[i as int] == qs@[i as int]@);
        }
        if qs[i].eq_data(q) {
            return true;
        }
        i = i + 1;
    }
    false
}

/// Collapses duplicate questions, keeping the first occurrence of each
/// content class in order.
pub fn dedup_questions(qs: Vec<QuestionData>) -> (r: Vec<QuestionData>)
    ensures
        question_views(r@) == dedup_spec(question_views(qs@), question_eqv()),
{
    let ghost input = question_views(qs@);
    let mut out: Vec<QuestionData> = Vec::new();
    let mut rest = qs;
    proof {
        assert(question_views(rest@) =~= input.skip(0));
        assert(question_views(out@) =~= dedup_spec(input.take(0), question_eqv()));
    }
    while rest.len() > 0
        invariant
            rest@.len() <= input.len(),
            question_views(rest@) == input.skip(input.len() - rest@.len()),
            question_views(out@) == dedup_spec(
                input.take(input.len() - rest@.len()),
                question_eqv(),
            ),
        decreases rest@.len(),
    {
        let ghost k = input.len() - rest@.len();
        let ghost rest_pre = rest@;
        let x = rest.remove(0);
        proof {
            assert(question_views(rest_pre)[0] == x@);
            assert(x@ == input[k]);
            assert forall|t: int| 0 <= t < rest@.len() implies question_views(rest@)[t]
                == input.skip(k + 1)[t] by {
                assert(rest@[t] == rest_pre[t + 1]);
                assert(question_views(rest_pre)[t + 1] == input.skip(k as int)[t + 1]);
            }
            assert(question_views(rest@) =~= input.skip(k + 1));
        }
        let dup = question_list_contains(&out, &x);
        let ghost d = question_views(out@);
        proof {
            assert(input.take(k + 1).drop_last() =~= input.take(k as int));
            assert(input.take(k + 1).last() == input[k]);
            assert(forall|t: int|
                0 <= t < d.len() ==> question_eqv()(#[trigger] d[t], x@) == question_content_eqv(
                    d[t],
                    x@,
                ));
        }
        if !dup {
            out.push(x);
            proof {
                assert(question_views(out@) =~= d.push(input[k]));
            }
        }
        proof {
            assert(question_views(out@) == dedup_spec(input.take(k + 1), question_eqv()));
        }
    }
    proof {
        assert(input.take(input.len() as int) =~= input);
    }
    out
}

// ---------------------------------------------------------------------------
// Executable sorting.
// ---------------------------------------------------------------------------

/// Sorts options into the canonical order, stably.
pub fn sort_options(os: Vec<QuestionOptionData>) -> (r: Vec<QuestionOptionData>)
    ensures
        option_views(r@) == sort_spec(option_views(os@), option_order()),
{
    let ghost input = option_views(os@);
    let mut out: Vec<QuestionOptionData> = Vec::new();
    let mut rest = os;
    proof {
        assert(option_views(rest@) =~= input.skip(0));
        assert(option_views(out@) =~= sort_spec(input.take(0), option_order()));
    }
    while rest.len() > 0
        invariant
            rest@.len() <= input.len(),
            option_views(rest@) == input.skip(input.len() - rest@.len()),
            option_views(out@) == sort_spec(input.take(input.len() - rest@.len()), option_order()),
        decreases rest@.len(),
    {
        let ghost k = input.len() - rest@.len();
        let ghost rest_pre = rest@;
        let x = rest.remove(0);
        proof {
            assert(option_views(rest_pre)[0] == x@);
            assert(x@ == input[k]);
            assert forall|t: int| 0 <= t < rest@.len() implies option_views(rest@)[t]
                == input.skip(k + 1)[t] by {
                assert(rest@[t] == rest_pre[t + 1]);
                assert(option_views(rest_pre)[t + 1] == input.skip(k as int)[t + 1]);
            }
            assert(option_views(rest@) =~= input.skip(k + 1));
        }
        let ghost d = option_views(out@);
        let mut j: usize = 0;
        while j < out.len() && option_le(&out[j], &x)
            invariant
                j <= out@.len(),
                d == option_views(out@),
                d.len() == out@.len(),
                forall|t: int| 0 <= t < j ==> option_leq(#[trigger] d[t], x@),
            decreases out@.len() - j,
        {
            proof {
                assert(d[j as int] == out@[j as int]@);
            }
            j = j + 1;
        }
        proof {
            assert(j < out@.len() ==> !option_leq(d[j as int], x@));
            assert(forall|t: int|
                0 <= t < d.len() ==> option_order()(#[trigger] d[t], x@) == option_leq(d[t], x@));
            lemma_insert_sorted_at(x@, d, option_order(), j as int);
        }
        out.insert(j, x);
        proof {
            assert(option_views(out@) =~= d.take(j as int) + seq![x@] + d.skip(j as int));
            assert(input.take(k + 1).drop_last() =~= input.take(k as int));
            assert(input.take(k + 1).last() == input[k]);
            assert(option_views(out@) == sort_spec(input.take(k + 1), option_order()));
        }
    }
    proof {
        assert(input.take(input.len() as int) =~= input);
    }
    out
}

/// Sorts questions into the canonical order, stably.
pub fn sort_questions(qs: Vec<QuestionData>) -> (r: Vec<QuestionData>)
    ensures
        question_views(r@) == sort_spec(question_views(qs@), question_order()),
{
    let ghost input = question_views(qs@);
    let mut out: Vec<QuestionData> = Vec::new();
    let mut rest = qs;
    proof {
        assert(question_views(rest@) =~= input.skip(0));
        assert(question_views(out@) =~= sort_spec(input.take(0), question_order()));
    }
    while rest.len() > 0
        invariant
            rest@.len() <= input.len(),
            question_views(rest@) == input.skip(input.len() - rest@.len()),
            question_views(out@) == sort_spec(
                input.take(input.len() - rest@.len()),
                question_order(),
            ),
        decreases rest@.len(),
    {
        let ghost k = input.len() - rest@.len();
        let ghost rest_pre = rest@;
        let x = rest.remove(0);
        proof {
            assert(question_views(rest_pre)[0] == x@);
            assert(x@ == input[k]);
            assert forall|t: int| 0 <= t < rest@.len() implies question_views(rest@)[t]
                == input.skip(k + 1)[t] by {
                assert(rest@[t] == rest_pre[t + 1]);
                assert(question_views(rest_pre)[t + 1] == input.skip(k as int)[t + 1]);
            }
            assert(question_views(rest@) =~= input.skip(k + 1));
        }
        let ghost d = question_views(out@);
        let mut j: usize = 0;
        while j < out.len() && question_le(&out[j], &x)
            invariant
                j <= out@.len(),
                d == question_views(out@),
                d.len() == out@.len(),
                forall|t: int| 0 <= t < j ==> question_leq(#[trigger] d[t], x@),
            decreases out@.len() - j,
        {
            proof {
                assert(d[j as int] == out@[j as int]@);
            }
            j = j + 1;
        }
        proof {
            assert(j < out@.len() ==> !question_leq(d[j as int], x@));
            assert(forall|t: int|
                0 <= t < d.len() ==> question_order()(#[trigger] d[t], x@) == question_leq(
                    d[t],
                    x@,
                ));
            lemma_insert_sorted_at(x@, d, question_order(), j as int);
        }
        out.insert(j, x);
        proof {
            assert(question_views(out@) =~= d.take(j as int) + seq![x@] + d.skip(j as int));
            assert(input.take(k + 1).drop_last() =~= input.take(k as int));
            assert(input.take(k + 1).last() == input[k]);
            assert(question_views(out@) == sort_spec(input.take(k + 1), question_order()));
        }
    }
    proof {
        assert(input.take(input.len() as int) =~= input);
    }
    out
}

// ---------------------------------------------------------------------------
// Canonicalization of whole entities.
// ---------------------------------------------------------------------------

impl QuestionData {
    /// Puts this question into canonical form: trims its text and its
    /// options' texts, collapses duplicate options, sorts the options.
    pub fn canonicalize(&mut self)
        ensures
            final(self)@ == canonical_question(old(self)@),
    {
        let ghost orig = self@;
        let t = trim_bytes(self.text.as_slice());
        self.text = t;
        let n = self.question_options.len();
        let mut i: usize = 0;
        while i < n
            invariant
                i <= n,
                n == self.question_options.len(),
                orig.question_options.len() == n,
                forall|k: int|
                    0 <= k < i ==> #[trigger] self.question_options@[k]@ == trimmed_option(
                        orig.question_options[k],
                    ),
                forall|k: int|
                    i <= k < n ==> #[trigger] self.question_options@[k]@
                        == orig.question_options[k],
                self@ == (QuestionView {
                    text: trim_spec(orig.text),
                    question_options: option_views(self.question_options@),
                    ..orig
                }),
            decreases n - i,
        {
            let ghost pre = self.question_options@;
            let mut o = self.question_options.remove(i);
            let t = trim_bytes(o.text.as_slice());
            o.text = t;
            self.question_options.insert(i, o);
            proof {
                assert(pre[i as int]@ == orig.question_options[i as int]);
                assert(forall|k: int|
                    0 <= k < n && k != i ==> #[trigger] self.question_options@[k] == pre[k]);
                assert(self.question_options@[i as int] == o);
                assert(o@ =~~= trimmed_option(orig.question_options[i as int]));
            }
            i = i + 1;
        }
        proof {
            assert(option_views(self.question_options@) =~= trimmed_options(
                orig.question_options,
            ));
        }
        let opts = self.question_options.split_off(0);
        proof {
            assert(option_views(opts@) =~= trimmed_options(orig.question_options));
        }
        let opts = dedup_options(opts);
        let opts = sort_options(opts);
        self.question_options = opts;
        proof {
            assert(self@ =~~= canonical_question(orig));
        }
    }
}

impl CourseData {
    /// Puts this course into canonical form: every question canonical,
    /// duplicate questions collapsed, questions sorted.
    pub fn canonicalize(&mut self)
        ensures
            final(self)@ == canonical_course(old(self)@),
    {
        let ghost orig = self@;
        let n = self.questions.len();
        let mut i: usize = 0;
        while i < n
            invariant
                i <= n,
                n == self.questions.len(),
                orig.questions.len() == n,
                forall|k: int|
                    0 <= k < i ==> #[trigger] self.questions@[k]@ == canonical_question(
                        orig.questions[k],
                    ),
                forall|k: int| i <= k < n ==> #[trigger] self.questions@[k]@ == orig.questions[k],
                self@ == (CourseView { questions: question_views(self.questions@), ..orig }),
            decreases n - i,
        {
            let ghost pre = self.questions@;
            let mut q = self.questions.remove(i);
            q.canonicalize();
            self.questions.insert(i, q);
            proof {
                assert(pre[i as int]@ == orig.questions[i as int]);
                assert(forall|k: int|
                    0 <= k < n && k != i ==> #[trigger] self.questions@[k] == pre[k]);
                assert(self.questions@[i as int] == q);
            }
            i = i + 1;
        }
        proof {
            assert(question_views(self.questions@) =~= canonical_questions(orig.questions));
        }
        let qs = self.questions.split_off(0);
        proof {
            assert(question_views(qs@) =~= canonical_questions(orig.questions));
        }
        let qs = dedup_questions(qs);
        let qs = sort_questions(qs);
        self.questions = qs;
        proof {
            assert(self@ =~~= canonical_course(orig));
        }
    }
}


// ---------------------------------------------------------------------------
// Properties of the canonical orders and duplicate relations.
// ---------------------------------------------------------------------------

/// Any two options are ordered one way or the other.
pub proof fn lemma_option_leq_total(a: OptionView, b: OptionView)
    ensures
        option_leq(a, b) || option_leq(b, a),
{
    if !a.correct && !b.correct {
        lemma_lex_total(a.text, b.text);
    }
}

/// The option order is transitive.
pub proof fn lemma_option_leq_trans(a: OptionView, b: OptionView, c: OptionView)
    requires
        option_leq(a, b),
        option_leq(b, c),
    ensures
        option_leq(a, c),
{
    if !a.correct && !b.correct && !c.correct {
        lemma_lex_transitive(a.text, b.text, c.text);
    }
}

/// Options ordered both ways share their sort key: the correctness flag,
/// and, among incorrect options, the text.
pub proof fn lemma_option_leq_ties(a: OptionView, b: OptionView)
    requires
        option_leq(a, b),
        option_leq(b, a),
        !(a.correct && b.correct),
    ensures
        a.correct == b.correct,
        !a.correct ==> a.text == b.text,
{
    if !a.correct && !b.correct {
        lemma_lex_antisymmetric(a.text, b.text);
    }
}

/// The option order as a relation is total and transitive.
pub proof fn lemma_option_order_properties()
    ensures
        transitive(option_order()),
        strongly_connected(option_order()),
{
    assert forall|a: OptionView, b: OptionView, c: OptionView|
        #[trigger] option_order()(a, b) && #[trigger] option_order()(b, c) implies option_order()(
        a,
        c,
    ) by {
        lemma_option_leq_trans(a, b, c);
    }
    assert forall|a: OptionView, b: OptionView| #[trigger]
        option_order()(a, b) || #[trigger] option_order()(b, a) by {
        lemma_option_leq_total(a, b);
    }
}

/// Any two questions are ordered one way or the other.
pub proof fn lemma_question_leq_total(a: QuestionView, b: QuestionView)
    ensures
        question_leq(a, b) || question_leq(b, a),
{
    if a.evaluation != b.evaluation {
        lemma_lex_total(a.evaluation, b.evaluation);
    } else {
        match (a.asked_at, b.asked_at) {
            (Some(x), Some(y)) => {
                if x != y {
                    lemma_lex_total(x, y);
                } else {
                    lemma_question_leq_text_id_total(a, b);
                }
            },
            (None, None) => {
                lemma_question_leq_text_id_total(a, b);
            },
            _ => {},
        }
    }
}

proof fn lemma_question_leq_text_id_total(a: QuestionView, b: QuestionView)
    ensures
        question_leq_text_id(a, b) || question_leq_text_id(b, a),
{
    if a.text != b.text {
        lemma_lex_total(a.text, b.text);
    } else {
        lemma_lex_total(a.id, b.id);
    }
}

proof fn lemma_question_leq_text_id_trans(a: QuestionView, b: QuestionView, c: QuestionView)
    requires
        question_leq_text_id(a, b),
        question_leq_text_id(b, c),
    ensures
        question_leq_text_id(a, c),
{
    if a.text != b.text && b.text != c.text {
        if a.text == c.text {
            lemma_lex_antisymmetric(a.text, b.text);
        } else {
            lemma_lex_transitive(a.text, b.text, c.text);
        }
    } else if a.text == b.text && b.text == c.text {
        lemma_lex_transitive(a.id, b.id, c.id);
    }
}

/// The question order is transitive.
pub proof fn lemma_question_leq_trans(a: QuestionView, b: QuestionView, c: QuestionView)
    requires
        question_leq(a, b),
        question_leq(b, c),
    ensures
        question_leq(a, c),
{
    if a.evaluation != b.evaluation && b.evaluation != c.evaluation {
        if a.evaluation == c.evaluation {
            lemma_lex_antisymmetric(a.evaluation, b.evaluation);
        } else {
            lemma_lex_transitive(a.evaluation, b.evaluation, c.evaluation);
        }
    } else if a.evaluation == b.evaluation && b.evaluation == c.evaluation {
        match (a.asked_at, b.asked_at, c.asked_at) {
            (Some(x), Some(y), Some(z)) => {
                if x != y && y != z {
                    if x == z {
                        lemma_lex_antisymmetric(x, y);
                    } else {
                        lemma_lex_transitive(x, y, z);
                    }
                } else if x == y && y == z {
                    lemma_question_leq_text_id_trans(a, b, c);
                }
            },
            (None, None, None) => {
                lemma_question_leq_text_id_trans(a, b, c);
            },
            _ => {},
        }
    }
}

/// Questions ordered both ways share all four sort keys: evaluation,
/// ask-date, text and identity.
pub proof fn lemma_question_leq_ties(a: QuestionView, b: QuestionView)
    requires
        question_leq(a, b),
        question_leq(b, a),
    ensures
        a.evaluation == b.evaluation,
        a.asked_at == b.asked_at,
        a.text == b.text,
        a.id == b.id,
{
    if a.evaluation != b.evaluation {
        lemma_lex_antisymmetric(a.evaluation, b.evaluation);
    }
    match (a.asked_at, b.asked_at) {
        (Some(x), Some(y)) => {
            if x != y {
                lemma_lex_antisymmetric(x, y);
            }
        },
        _ => {},
    }
    if a.text != b.text {
        lemma_lex_antisymmetric(a.text, b.text);
    }
    lemma_lex_antisymmetric(a.id, b.id);
}

/// The question order as a relation is total and transitive.
pub proof fn lemma_question_order_properties()
    ensures
        transitive(question_order()),
        strongly_connected(question_order()),
{
    assert forall|a: QuestionView, b: QuestionView, c: QuestionView|
        #[trigger] question_order()(a, b) && #[trigger] question_order()(b, c)
        implies question_order()(a, c) by {
        lemma_question_leq_trans(a, b, c);
    }
    assert forall|a: QuestionView, b: QuestionView| #[trigger]
        question_order()(a, b) || #[trigger] question_order()(b, a) by {
        lemma_question_leq_total(a, b);
    }
}

/// Option duplicate detection is an equivalence: reflexive, symmetric,
/// transitive.
pub proof fn lemma_option_eqv_properties()
    ensures
        forall|a: OptionView| #[trigger] option_eqv()(a, a),
        forall|a: OptionView, b: OptionView| #[trigger]
            option_eqv()(a, b) == option_eqv()(b, a),
        forall|a: OptionView, b: OptionView, c: OptionView|
            #[trigger] option_eqv()(a, b) && #[trigger] option_eqv()(b, c) ==> option_eqv()(
                a,
                c,
            ),
{
}

/// Question duplicate detection is reflexive and symmetric.
pub proof fn lemma_question_eqv_properties()
    ensures
        forall|a: QuestionView| #[trigger] question_eqv()(a, a),
        forall|a: QuestionView, b: QuestionView| #[trigger]
            question_eqv()(a, b) == question_eqv()(b, a),
{
    assert forall|a: QuestionView| #[trigger] question_eqv()(a, a) by {
        assert forall|i: int| 0 <= i < a.question_options.len() implies option_in(
            a.question_options,
            #[trigger] a.question_options[i],
        ) by {
            assert(option_content_eqv(a.question_options[i], a.question_options[i]));
        }
    }
}

/// Trimming an option is idempotent.
pub proof fn lemma_trimmed_option_idempotent(o: OptionView)
    ensures
        trimmed_option(trimmed_option(o)) == trimmed_option(o),
{
    lemma_trim_idempotent(o.text);
    assert(trimmed_option(trimmed_option(o)) =~~= trimmed_option(o));
}

} // verus!
