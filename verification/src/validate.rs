//! The validator: per-question structural rules, checked before any
//! canonicalization, hashing or diffing.
//!
//! A question must carry between 2 and 5 options, exactly one of them
//! marked correct. A single invalid question aborts the whole run, and the
//! error names the offending question and the violated rule.

use vstd::prelude::*;

use crate::data::{CourseData, CourseView, QuestionData, QuestionView};

verus! {

/// A structural rule violation, naming the offending question.
#[derive(Clone, Debug, PartialEq, Eq)]
pub enum ValidationError {
    /// The question's option count lies outside 2 to 5.
    OptionCount { question_id: Vec<u8>, count: usize },
    /// The question does not have exactly one correct option.
    CorrectOptionCount { question_id: Vec<u8>, count: usize },
}

#[verifier::ext_equal]
pub ghost enum ValidationErrorView {
    OptionCount { question_id: Seq<u8>, count: int },
    CorrectOptionCount { question_id: Seq<u8>, count: int },
}

impl View for ValidationError {
    type V = ValidationErrorView;

    open spec fn view(&self) -> ValidationErrorView {
        match self {
            ValidationError::OptionCount { question_id, count } => ValidationErrorView::OptionCount {
                question_id: question_id@,
                count: *count as int,
            },
            ValidationError::CorrectOptionCount {
                question_id,
                count,
            } => ValidationErrorView::CorrectOptionCount {
                question_id: question_id@,
                count: *count as int,
            },
        }
    }
}

/// How many options of a sequence are marked correct.
pub open spec fn count_correct(os: Seq<crate::data::OptionView>) -> int
    decreases os.len(),
{
    if os.len() == 0 {
        0
    } else {
        count_correct(os.drop_last()) + if os.last().correct {
            1int
        } else {
            0int
        }
    }
}

/// How many of a question's options are marked correct.
pub open spec fn correct_count(q: QuestionView) -> int {
    count_correct(q.question_options)
}

/// Whether a question's option count lies within 2 to 5.
pub open spec fn option_count_ok(q: QuestionView) -> bool {
    2 <= q.question_options.len() <= 5
}

/// Whether a question meets every structural rule: option count within
/// bounds and exactly one correct option.
pub open spec fn question_valid(q: QuestionView) -> bool {
    option_count_ok(q) && correct_count(q) == 1
}

/// The error an invalid question is reported with: the option-count rule
/// first, then the correct-count rule.
pub open spec fn expected_question_error(q: QuestionView) -> ValidationErrorView {
    if !option_count_ok(q) {
        ValidationErrorView::OptionCount {
            question_id: q.id,
            count: q.question_options.len() as int,
        }
    } else {
        ValidationErrorView::CorrectOptionCount { question_id: q.id, count: correct_count(q) }
    }
}

/// Whether every question of a course meets the structural rules.
pub open spec fn course_valid(c: CourseView) -> bool {
    forall|i: int| 0 <= i < c.questions.len() ==> question_valid(#[trigger] c.questions[i])
}

impl QuestionData {
    /// Checks this question's structural rules, reporting the violated rule
    /// and this question's identity on failure.
    pub fn check(&self) -> (r: Result<(), ValidationError>)
        ensures
            (r is Ok) == question_valid(self@),
            r matches Err(e) ==> e@ == expected_question_error(self@),
    {
        let n = self.question_options.len();
        if n < 2 || n > 5 {
            return Err(
                ValidationError::OptionCount {
                    question_id: crate::text::copy_bytes(self.id.as_slice()),
                    count: n,
                },
            );
        }
        let ghost options = self@.question_options;
        let mut correct: usize = 0;
        let mut i: usize = 0;
        while i < n
            invariant
                i <= n,
                n == self.question_options.len(),
                options == self@.question_options,
                options.len() == n,
                correct == count_correct(options.take(i as int)),
                correct <= i,
            decreases n - i,
        {
            proof {
                assert(options[i as int] == self.question_options@[i as int]@);
                assert(options.take(i + 1).drop_last() =~= options.take(i as int));
                assert(options.take(i + 1).last() == options[i as int]);
            }
            if self.question_options[i].correct {
                correct = correct + 1;
            }
            i = i + 1;
        }
        proof {
            assert(options.take(n as int) =~= options);
        }
        if correct != 1 {
            return Err(
                ValidationError::CorrectOptionCount {
                    question_id: crate::text::copy_bytes(self.id.as_slice()),
                    count: correct,
                },
            );
        }
        Ok(())
    }
}

impl CourseData {
    /// Checks every question of this course, failing fast on the first
    /// invalid one in order.
    pub fn check(&self) -> (r: Result<(), ValidationError>)
        ensures
            (r is Ok) == course_valid(self@),
            r matches Err(e) ==> exists|i: int|
                0 <= i < self@.questions.len() && !question_valid(#[trigger] self@.questions[i])
                    && (forall|k: int| 0 <= k < i ==> question_valid(#[trigger] self@.questions[k]))
                    && e@ == expected_question_error(self@.questions[i]),
    {
        let ghost questions = self@.questions;
        let mut i: usize = 0;
        while i < self.questions.len()
            invariant
                i <= self.questions.len(),
                questions == self@.questions,
                questions.len() == self.questions.len(),
                forall|k: int| 0 <= k < i ==> question_valid(#[trigger] questions[k]),
            decreases self.questions.len() - i,
        {
            proof {
                assert(questions[i as int] == self.questions@[i as int]@);
            }
            match self.questions[i].check() {
                Ok(()) => {},
                Err(e) => {
                    return Err(e);
                },
            }
            i = i + 1;
        }
        Ok(())
    }
}

} // verus!
