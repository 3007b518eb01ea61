//! The diff engine: reconciles the canonicalized, hashed local course tree
//! against a remote snapshot of id-to-hash maps, producing the changeset of
//! entities to upsert and identities to delete.
//!
//! Deletions are computed as an explicit set difference: a remote entry is
//! deleted exactly when no local entity carries its key. Upserts are
//! computed by walking the local tree: an entity whose hash matches its
//! remote entry is skipped, anything else is sent. Back-references are
//! bound during the walk (a question learns its course key and fully
//! qualifies its evaluation; an option learns its question id); hashes are
//! never recomputed by the diff. The evaluation set is reconciled
//! cascade-aware: an evaluation is upserted when a question referencing it
//! is sent or its course is sent, and deleted when no surviving question
//! references it at all.

use vstd::prelude::*;

use crate::data::{
    CourseData, CourseEvaluationData, CourseView, EvaluationView, OptionView, QuestionData,
    QuestionOptionData, QuestionView, bytes_views, course_views, evaluation_views, full_key_spec,
    option_views, question_views,
};
use crate::digest::{blake3_hex, blake3_hex_of};
use crate::text::{bytes_eq, copy_bytes};

verus! {

// ---------------------------------------------------------------------------
// The remote snapshot and the changeset.
// ---------------------------------------------------------------------------

/// The remote store's last-known state: per-level key-to-hash maps and the
/// set of known fully qualified evaluation keys, read as one point-in-time
/// snapshot.
pub struct SyncMetadata {
    pub courses_metadata: Vec<(Vec<u8>, Vec<u8>)>,
    pub questions_metadata: Vec<(Vec<u8>, Vec<u8>)>,
    pub question_options_metadata: Vec<(Vec<u8>, Vec<u8>)>,
    pub course_evaluations: Vec<Vec<u8>>,
}

#[verifier::ext_equal]
pub ghost struct MetadataView {
    pub courses: Seq<(Seq<u8>, Seq<u8>)>,
    pub questions: Seq<(Seq<u8>, Seq<u8>)>,
    pub options: Seq<(Seq<u8>, Seq<u8>)>,
    pub evaluations: Seq<Seq<u8>>,
}

/// The views of a sequence of key-to-hash entries.
pub open spec fn pair_views(s: Seq<(Vec<u8>, Vec<u8>)>) -> Seq<(Seq<u8>, Seq<u8>)> {
    s.map_values(|p: (Vec<u8>, Vec<u8>)| (p.0@, p.1@))
}

impl View for SyncMetadata {
    type V = MetadataView;

    open spec fn view(&self) -> MetadataView {
        MetadataView {
            courses: pair_views(self.courses_metadata@),
            questions: pair_views(self.questions_metadata@),
            options: pair_views(self.question_options_metadata@),
            evaluations: bytes_views(self.course_evaluations@),
        }
    }
}

/// The changeset: entities to upsert (full content) and identities to
/// delete, per level, handed whole to the transport.
pub struct SyncData {
    pub courses_to_sync: Vec<CourseData>,
    pub courses_to_delete: Vec<Vec<u8>>,
    pub questions_to_sync: Vec<QuestionData>,
    pub questions_to_delete: Vec<Vec<u8>>,
    pub question_options_to_sync: Vec<QuestionOptionData>,
    pub question_options_to_delete: Vec<Vec<u8>>,
    pub course_evaluations_to_sync: Vec<CourseEvaluationData>,
    pub course_evaluations_to_delete: Vec<Vec<u8>>,
}

// ---------------------------------------------------------------------------
// Snapshot lookups.
// ---------------------------------------------------------------------------

/// The hash the snapshot holds under `k`: the first matching entry.
pub open spec fn lookup(m: Seq<(Seq<u8>, Seq<u8>)>, k: Seq<u8>) -> Option<Seq<u8>>
    decreases m.len(),
{
    if m.len() == 0 {
        None
    } else if m[0].0 == k {
        Some(m[0].1)
    } else {
        lookup(m.drop_first(), k)
    }
}

proof fn lemma_lookup_skip(m: Seq<(Seq<u8>, Seq<u8>)>, k: Seq<u8>, i: int)
    requires
        0 <= i <= m.len(),
        forall|t: int| 0 <= t < i ==> (#[trigger] m[t]).0 != k,
    ensures
        lookup(m, k) == lookup(m.skip(i), k),
    decreases i,
{
    if i > 0 {
        lemma_lookup_skip(m.drop_first(), k, i - 1);
        assert(m.drop_first().skip(i - 1) =~= m.skip(i));
    } else {
        assert(m.skip(0) =~= m);
    }
}

/// Whether the snapshot maps `k` to exactly the hash `h`.
pub fn hash_matches(m: &Vec<(Vec<u8>, Vec<u8>)>, k: &[u8], h: &[u8]) -> (r: bool)
    ensures
        r == (lookup(pair_views(m@), k@) == Some(h@)),
{
    let ghost mv = pair_views(m@);
    let mut i: usize = 0;
    while i < m.len()
        invariant
            i <= m@.len(),
            mv == pair_views(m@),
            mv.len() == m@.len(),
            forall|t: int| 0 <= t < i ==> (#[trigger] mv[t]).0 != k@,
        decreases m@.len() - i,
    {
        proof {
            assert(mv[i as int] == (m@[i as int].0@, m@[i as int].1@));
        }
        if bytes_eq(m[i].0.as_slice(), k) {
            proof {
                lemma_lookup_skip(mv, k@, i as int);
                assert(mv.skip(i as int)[0] == mv[i as int]);
                assert(mv.skip(i as int).len() > 0);
            }
            return bytes_eq(m[i].1.as_slice(), h);
        }
        i = i + 1;
    }
    proof {
        lemma_lookup_skip(mv, k@, i as int);
        assert(mv.skip(i as int).len() == 0);
    }
    false
}

/// Whether a local course's hash matches the remote snapshot's entry for
/// its key: the course and its whole subtree are then provisionally
/// unchanged.
pub open spec fn course_unchanged(m: MetadataView, c: CourseView) -> bool {
    lookup(m.courses, c.key) == Some(c.hash)
}

/// Whether a local question's hash matches the remote snapshot's entry for
/// its id. A question absent from the snapshot is never unchanged.
pub open spec fn question_unchanged(m: MetadataView, q: QuestionView) -> bool {
    lookup(m.questions, q.id) == Some(q.hash)
}

/// Whether a local option's hash matches the remote snapshot's entry for
/// its id.
pub open spec fn option_unchanged(m: MetadataView, o: OptionView) -> bool {
    lookup(m.options, o.id) == Some(o.hash)
}

// ---------------------------------------------------------------------------
// Upsert shapes: what is sent for each entity.
// ---------------------------------------------------------------------------

/// A course as it is sent: its own fields and evaluations, without its
/// questions, which travel separately.
pub open spec fn course_shell(c: CourseView) -> CourseView {
    CourseView { questions: Seq::empty(), ..c }
}

/// A question as it is sent: bound to its course, its evaluation fully
/// qualified, without its options, which travel separately. Identity and
/// hash are untouched: back-references never enter a hash.
pub open spec fn bound_question(q: QuestionView, course_key: Seq<u8>) -> QuestionView {
    QuestionView {
        course_key: Some(course_key),
        evaluation: full_key_spec(course_key, q.evaluation),
        question_options: Seq::empty(),
        ..q
    }
}

/// An option as it is sent: bound to its question. Identity and hash are
/// untouched.
pub open spec fn bound_option(o: OptionView, question_id: Seq<u8>) -> OptionView {
    OptionView { question_id: Some(question_id), ..o }
}

// ---------------------------------------------------------------------------
// Upserts.
// ---------------------------------------------------------------------------

/// The courses to send: every local course whose hash does not match the
/// snapshot, as a shell, in local order.
pub open spec fn course_upserts(m: MetadataView, cs: Seq<CourseView>) -> Seq<CourseView>
    decreases cs.len(),
{
    if cs.len() == 0 {
        Seq::empty()
    } else {
        let prev = course_upserts(m, cs.drop_last());
        if course_unchanged(m, cs.last()) {
            prev
        } else {
            prev.push(course_shell(cs.last()))
        }
    }
}

/// The questions of one course to send: every question whose hash does not
/// match the snapshot, bound to the course, in order. A course-level change
/// does not force unchanged sibling questions to be re-sent, and a question
/// absent from the snapshot is always sent.
pub open spec fn question_upserts(
    m: MetadataView,
    qs: Seq<QuestionView>,
    course_key: Seq<u8>,
) -> Seq<QuestionView>
    decreases qs.len(),
{
    if qs.len() == 0 {
        Seq::empty()
    } else {
        let prev = question_upserts(m, qs.drop_last(), course_key);
        if question_unchanged(m, qs.last()) {
            prev
        } else {
            prev.push(bound_question(qs.last(), course_key))
        }
    }
}

/// The questions of every course to send, course-major.
pub open spec fn all_question_upserts(m: MetadataView, cs: Seq<CourseView>) -> Seq<QuestionView>
    decreases cs.len(),
{
    if cs.len() == 0 {
        Seq::empty()
    } else {
        all_question_upserts(m, cs.drop_last()) + question_upserts(
            m,
            cs.last().questions,
            cs.last().key,
        )
    }
}

/// The options of one question to send: every option whose hash does not
/// match the snapshot, bound to the question, in order. Options are walked
/// whether or not their question changed.
pub open spec fn option_upserts(
    m: MetadataView,
    os: Seq<OptionView>,
    question_id: Seq<u8>,
) -> Seq<OptionView>
    decreases os.len(),
{
    if os.len() == 0 {
        Seq::empty()
    } else {
        let prev = option_upserts(m, os.drop_last(), question_id);
        if option_unchanged(m, os.last()) {
            prev
        } else {
            prev.push(bound_option(os.last(), question_id))
        }
    }
}

/// The options of one course to send, question-major.
pub open spec fn course_option_upserts(m: MetadataView, qs: Seq<QuestionView>) -> Seq<OptionView>
    decreases qs.len(),
{
    if qs.len() == 0 {
        Seq::empty()
    } else {
        course_option_upserts(m, qs.drop_last()) + option_upserts(
            m,
            qs.last().question_options,
            qs.last().id,
        )
    }
}

/// The options of every course to send, course-major.
pub open spec fn all_option_upserts(m: MetadataView, cs: Seq<CourseView>) -> Seq<OptionView>
    decreases cs.len(),
{
    if cs.len() == 0 {
        Seq::empty()
    } else {
        all_option_upserts(m, cs.drop_last()) + course_option_upserts(m, cs.last().questions)
    }
}

// ---------------------------------------------------------------------------
// Evaluation reconciliation.
// ---------------------------------------------------------------------------

/// The display name a course declares for an evaluation key, or the key
/// itself when the course declares none.
pub open spec fn eval_name(es: Seq<EvaluationView>, key: Seq<u8>) -> Seq<u8>
    decreases es.len(),
{
    if es.len() == 0 {
        key
    } else if es[0].key == key {
        es[0].name
    } else {
        eval_name(es.drop_first(), key)
    }
}

/// The evaluation entry sent for a question of a course: keyed by the fully
/// qualified evaluation key, content-hashed by display name alone.
pub open spec fn eval_entry(c: CourseView, eval_key: Seq<u8>) -> EvaluationView {
    let name = eval_name(c.evaluations, eval_key);
    EvaluationView {
        course_key: Some(c.key),
        key: full_key_spec(c.key, eval_key),
        name: name,
        hash: blake3_hex_of(name),
    }
}

/// Whether some evaluation entry in `es` carries the key `k`.
pub open spec fn eval_key_in(es: Seq<EvaluationView>, k: Seq<u8>) -> bool {
    exists|i: int| 0 <= i < es.len() && (#[trigger] es[i]).key == k
}

/// The evaluation upserts accumulated after walking one course's questions:
/// a question that is sent, or whose course is sent, contributes its
/// evaluation, deduplicated by fully qualified key.
pub open spec fn eval_upserts_course(
    m: MetadataView,
    c: CourseView,
    qs: Seq<QuestionView>,
    acc: Seq<EvaluationView>,
) -> Seq<EvaluationView>
    decreases qs.len(),
{
    if qs.len() == 0 {
        acc
    } else {
        let prev = eval_upserts_course(m, c, qs.drop_last(), acc);
        let q = qs.last();
        if (!course_unchanged(m, c) || !question_unchanged(m, q)) && !eval_key_in(
            prev,
            full_key_spec(c.key, q.evaluation),
        ) {
            prev.push(eval_entry(c, q.evaluation))
        } else {
            prev
        }
    }
}

/// The evaluation upserts accumulated after walking every course.
pub open spec fn eval_upserts(
    m: MetadataView,
    cs: Seq<CourseView>,
    acc: Seq<EvaluationView>,
) -> Seq<EvaluationView>
    decreases cs.len(),
{
    if cs.len() == 0 {
        acc
    } else {
        eval_upserts_course(
            m,
            cs.last(),
            cs.last().questions,
            eval_upserts(m, cs.drop_last(), acc),
        )
    }
}

// ---------------------------------------------------------------------------
// Deletions: remote entries no local entity accounts for.
// ---------------------------------------------------------------------------

/// Whether some local course carries the key `k`.
pub open spec fn course_key_present(cs: Seq<CourseView>, k: Seq<u8>) -> bool {
    exists|i: int| 0 <= i < cs.len() && (#[trigger] cs[i]).key == k
}

/// Whether some local question carries the id `id`.
pub open spec fn question_id_present(cs: Seq<CourseView>, id: Seq<u8>) -> bool {
    exists|i: int, j: int|
        0 <= i < cs.len() && 0 <= j < cs[i].questions.len() && (#[trigger] cs[i].questions[j]).id
            == id
}

/// Whether some local option carries the id `id`.
pub open spec fn option_id_present(cs: Seq<CourseView>, id: Seq<u8>) -> bool {
    exists|i: int, j: int, l: int|
        0 <= i < cs.len() && 0 <= j < cs[i].questions.len() && 0 <= l
            < cs[i].questions[j].question_options.len() && (#[trigger] cs[i].questions[j].question_options[l]).id
            == id
}

/// Whether some local question references the fully qualified evaluation
/// key `k`, whether or not that question changed.
pub open spec fn eval_key_used(cs: Seq<CourseView>, k: Seq<u8>) -> bool {
    exists|i: int, j: int|
        0 <= i < cs.len() && 0 <= j < cs[i].questions.len() && full_key_spec(
            (#[trigger] cs[i]).key,
            (#[trigger] cs[i].questions[j]).evaluation,
        ) == k
}

/// The remote course keys to delete: those no local course carries, in
/// snapshot order.
pub open spec fn course_deletions(
    entries: Seq<(Seq<u8>, Seq<u8>)>,
    cs: Seq<CourseView>,
) -> Seq<Seq<u8>>
    decreases entries.len(),
{
    if entries.len() == 0 {
        Seq::empty()
    } else {
        let prev = course_deletions(entries.drop_last(), cs);
        if course_key_present(cs, entries.last().0) {
            prev
        } else {
            prev.push(entries.last().0)
        }
    }
}

/// The remote question ids to delete: those no local question carries, in
/// snapshot order.
pub open spec fn question_deletions(
    entries: Seq<(Seq<u8>, Seq<u8>)>,
    cs: Seq<CourseView>,
) -> Seq<Seq<u8>>
    decreases entries.len(),
{
    if entries.len() == 0 {
        Seq::empty()
    } else {
        let prev = question_deletions(entries.drop_last(), cs);
        if question_id_present(cs, entries.last().0) {
            prev
        } else {
            prev.push(entries.last().0)
        }
    }
}

/// The remote option ids to delete: those no local option carries, in
/// snapshot order.
pub open spec fn option_deletions(
    entries: Seq<(Seq<u8>, Seq<u8>)>,
    cs: Seq<CourseView>,
) -> Seq<Seq<u8>>
    decreases entries.len(),
{
    if entries.len() == 0 {
        Seq::empty()
    } else {
        let prev = option_deletions(entries.drop_last(), cs);
        if option_id_present(cs, entries.last().0) {
            prev
        } else {
            prev.push(entries.last().0)
        }
    }
}

/// The remote evaluation keys to delete: those no surviving question
/// references, in snapshot order.
pub open spec fn eval_deletions(keys: Seq<Seq<u8>>, cs: Seq<CourseView>) -> Seq<Seq<u8>>
    decreases keys.len(),
{
    if keys.len() == 0 {
        Seq::empty()
    } else {
        let prev = eval_deletions(keys.drop_last(), cs);
        if eval_key_used(cs, keys.last()) {
            prev
        } else {
            prev.push(keys.last())
        }
    }
}


// ---------------------------------------------------------------------------
// Executable presence scans.
// ---------------------------------------------------------------------------

fn has_course_key(cs: &Vec<CourseData>, k: &[u8]) -> (r: bool)
    ensures
        r == course_key_present(course_views(cs@), k@),
{
    let mut i: usize = 0;
    while i < cs.len()
        invariant
            i <= cs@.len(),
            forall|t: int| 0 <= t < i ==> (#[trigger] course_views(cs@)[t]).key != k@,
        decreases cs@.len() - i,
    {
        proof {
            assert(course_views(cs@)[i as int] == cs@[i as int]@);
        }
        if bytes_eq(cs[i].key.as_slice(), k) {
            return true;
        }
        i = i + 1;
    }
    false
}

fn course_has_question_id(c: &CourseData, id: &[u8]) -> (r: bool)
    ensures
        r == exists|j: int|
            0 <= j < c@.questions.len() && (#[trigger] c@.questions[j]).id == id@,
{
    let mut j: usize = 0;
    while j < c.questions.len()
        invariant
            j <= c.questions@.len(),
            c@.questions.len() == c.questions@.len(),
            forall|t: int| 0 <= t < j ==> (#[trigger] c@.questions[t]).id != id@,
        decreases c.questions@.len() - j,
    {
        proof {
            assert(c@.questions[j as int] == c.questions@[j as int]@);
        }
        if bytes_eq(c.questions[j].id.as_slice(), id) {
            return true;
        }
        j = j + 1;
    }
    false
}

fn has_question_id(cs: &Vec<CourseData>, id: &[u8]) -> (r: bool)
    ensures
        r == question_id_present(course_views(cs@), id@),
{
    let mut i: usize = 0;
    while i < cs.len()
        invariant
            i <= cs@.len(),
            forall|t: int, j: int|
                0 <= t < i && 0 <= j < course_views(cs@)[t].questions.len()
                    ==> (#[trigger] course_views(cs@)[t].questions[j]).id != id@,
        decreases cs@.len() - i,
    {
        proof {
            assert(course_views(cs@)[i as int] == cs@[i as int]@);
        }
        if course_has_question_id(&cs[i], id) {
            return true;
        }
        i = i + 1;
    }
    false
}

fn question_has_option_id(q: &QuestionData, id: &[u8]) -> (r: bool)
    ensures
        r == exists|l: int|
            0 <= l < q@.question_options.len() && (#[trigger] q@.question_options[l]).id == id@,
{
    let mut l: usize = 0;
    while l < q.question_options.len()
        invariant
            l <= q.question_options@.len(),
            q@.question_options.len() == q.question_options@.len(),
            forall|t: int| 0 <= t < l ==> (#[trigger] q@.question_options[t]).id != id@,
        decreases q.question_options@.len() - l,
    {
        proof {
            assert(q@.question_options[l as int] == q.question_options@[l as int]@);
        }
        if bytes_eq(q.question_options[l].id.as_slice(), id) {
            return true;
        }
        l = l + 1;
    }
    false
}

fn course_has_option_id(c: &CourseData, id: &[u8]) -> (r: bool)
    ensures
        r == exists|j: int, l: int|
            0 <= j < c@.questions.len() && 0 <= l < c@.questions[j].question_options.len()
                && (#[trigger] c@.questions[j].question_options[l]).id == id@,
{
    let mut j: usize = 0;
    while j < c.questions.len()
        invariant
            j <= c.questions@.len(),
            c@.questions.len() == c.questions@.len(),
            forall|t: int, l: int|
                0 <= t < j && 0 <= l < c@.questions[t].question_options.len()
                    ==> (#[trigger] c@.questions[t].question_options[l]).id != id@,
        decreases c.questions@.len() - j,
    {
        proof {
            assert(c@.questions[j as int] == c.questions@[j as int]@);
        }
        if question_has_option_id(&c.questions[j], id) {
            return true;
        }
        j = j + 1;
    }
    false
}

fn has_option_id(cs: &Vec<CourseData>, id: &[u8]) -> (r: bool)
    ensures
        r == option_id_present(course_views(cs@), id@),
{
    let mut i: usize = 0;
    while i < cs.len()
        invariant
            i <= cs@.len(),
            forall|t: int, j: int, l: int|
                0 <= t < i && 0 <= j < course_views(cs@)[t].questions.len() && 0 <= l
                    < course_views(cs@)[t].questions[j].question_options.len()
                    ==> (#[trigger] course_views(cs@)[t].questions[j].question_options[l]).id
                    != id@,
        decreases cs@.len() - i,
    {
        proof {
            assert(course_views(cs@)[i as int] == cs@[i as int]@);
        }
        if course_has_option_id(&cs[i], id) {
            return true;
        }
        i = i + 1;
    }
    false
}

fn course_uses_eval_key(c: &CourseData, k: &[u8]) -> (r: bool)
    ensures
        r == exists|j: int|
            0 <= j < c@.questions.len() && full_key_spec(
                c@.key,
                (#[trigger] c@.questions[j]).evaluation,
            ) == k@,
{
    let mut j: usize = 0;
    while j < c.questions.len()
        invariant
            j <= c.questions@.len(),
            c@.questions.len() == c.questions@.len(),
            forall|t: int|
                0 <= t < j ==> full_key_spec(c@.key, (#[trigger] c@.questions[t]).evaluation)
                    != k@,
        decreases c.questions@.len() - j,
    {
        proof {
            assert(c@.questions[j as int] == c.questions@[j as int]@);
        }
        let fk = CourseEvaluationData::full_key(c.key.as_slice(), c.questions[j].evaluation.as_slice());
        if bytes_eq(fk.as_slice(), k) {
            return true;
        }
        j = j + 1;
    }
    false
}

fn uses_eval_key(cs: &Vec<CourseData>, k: &[u8]) -> (r: bool)
    ensures
        r == eval_key_used(course_views(cs@), k@),
{
    let mut i: usize = 0;
    while i < cs.len()
        invariant
            i <= cs@.len(),
            forall|t: int, j: int|
                0 <= t < i && 0 <= j < course_views(cs@)[t].questions.len() ==> full_key_spec(
                    (#[trigger] course_views(cs@)[t]).key,
                    (#[trigger] course_views(cs@)[t].questions[j]).evaluation,
                ) != k@,
        decreases cs@.len() - i,
    {
        proof {
            assert(course_views(cs@)[i as int] == cs@[i as int]@);
        }
        if course_uses_eval_key(&cs[i], k) {
            return true;
        }
        i = i + 1;
    }
    false
}

// ---------------------------------------------------------------------------
// Executable deletion builders.
// ---------------------------------------------------------------------------

fn build_course_deletions(entries: &Vec<(Vec<u8>, Vec<u8>)>, cs: &Vec<CourseData>) -> (r: Vec<
    Vec<u8>,
>)
    ensures
        bytes_views(r@) == course_deletions(pair_views(entries@), course_views(cs@)),
{
    let ghost ev = pair_views(entries@);
    let mut out: Vec<Vec<u8>> = Vec::new();
    let mut i: usize = 0;
    proof {
        assert(bytes_views(out@) =~= course_deletions(ev.take(0), course_views(cs@)));
    }
    while i < entries.len()
        invariant
            i <= entries@.len(),
            ev == pair_views(entries@),
            ev.len() == entries@.len(),
            bytes_views(out@) == course_deletions(ev.take(i as int), course_views(cs@)),
        decreases entries@.len() - i,
    {
        proof {
            assert(ev[i as int] == (entries@[i as int].0@, entries@[i as int].1@));
            assert(ev.take(i + 1).drop_last() =~= ev.take(i as int));
            assert(ev.take(i + 1).last() == ev[i as int]);
        }
        let ghost prev = bytes_views(out@);
        if !has_course_key(cs, entries[i].0.as_slice()) {
            let key = copy_bytes(entries[i].0.as_slice());
            out.push(key);
            proof {
                assert(bytes_views(out@) =~= prev.push(ev[i as int].0));
            }
        }
        i = i + 1;
    }
    proof {
        assert(ev.take(ev.len() as int) =~= ev);
    }
    out
}

fn build_question_deletions(entries: &Vec<(Vec<u8>, Vec<u8>)>, cs: &Vec<CourseData>) -> (r: Vec<
    Vec<u8>,
>)
    ensures
        bytes_views(r@) == question_deletions(pair_views(entries@), course_views(cs@)),
{
    let ghost ev = pair_views(entries@);
    let mut out: Vec<Vec<u8>> = Vec::new();
    let mut i: usize = 0;
    proof {
        assert(bytes_views(out@) =~= question_deletions(ev.take(0), course_views(cs@)));
    }
    while i < entries.len()
        invariant
            i <= entries@.len(),
            ev == pair_views(entries@),
            ev.len() == entries@.len(),
            bytes_views(out@) == question_deletions(ev.take(i as int), course_views(cs@)),
        decreases entries@.len() - i,
    {
        proof {
            assert(ev[i as int] == (entries@[i as int].0@, entries@[i as int].1@));
            assert(ev.take(i + 1).drop_last() =~= ev.take(i as int));
            assert(ev.take(i + 1).last() == ev[i as int]);
        }
        let ghost prev = bytes_views(out@);
        if !has_question_id(cs, entries[i].0.as_slice()) {
            let key = copy_bytes(entries[i].0.as_slice());
            out.push(key);
            proof {
                assert(bytes_views(out@) =~= prev.push(ev[i as int].0));
            }
        }
        i = i + 1;
    }
    proof {
        assert(ev.take(ev.len() as int) =~= ev);
    }
    out
}

fn build_option_deletions(entries: &Vec<(Vec<u8>, Vec<u8>)>, cs: &Vec<CourseData>) -> (r: Vec<
    Vec<u8>,
>)
    ensures
        bytes_views(r@) == option_deletions(pair_views(entries@), course_views(cs@)),
{
    let ghost ev = pair_views(entries@);
    let mut out: Vec<Vec<u8>> = Vec::new();
    let mut i: usize = 0;
    proof {
        assert(bytes_views(out@) =~= option_deletions(ev.take(0), course_views(cs@)));
    }
    while i < entries.len()
        invariant
            i <= entries@.len(),
            ev == pair_views(entries@),
            ev.len() == entries@.len(),
            bytes_views(out@) == option_deletions(ev.take(i as int), course_views(cs@)),
        decreases entries@.len() - i,
    {
        proof {
            assert(ev[i as int] == (entries@[i as int].0@, entries@[i as int].1@));
            assert(ev.take(i + 1).drop_last() =~= ev.take(i as int));
            assert(ev.take(i + 1).last() == ev[i as int]);
        }
        let ghost prev = bytes_views(out@);
        if !has_option_id(cs, entries[i].0.as_slice()) {
            let key = copy_bytes(entries[i].0.as_slice());
            out.push(key);
            proof {
                assert(bytes_views(out@) =~= prev.push(ev[i as int].0));
            }
        }
        i = i + 1;
    }
    proof {
        assert(ev.take(ev.len() as int) =~= ev);
    }
    out
}

fn build_eval_deletions(keys: &Vec<Vec<u8>>, cs: &Vec<CourseData>) -> (r: Vec<Vec<u8>>)
    ensures
        bytes_views(r@) == eval_deletions(bytes_views(keys@), course_views(cs@)),
{
    let ghost kv = bytes_views(keys@);
    let mut out: Vec<Vec<u8>> = Vec::new();
    let mut i: usize = 0;
    proof {
        assert(bytes_views(out@) =~= eval_deletions(kv.take(0), course_views(cs@)));
    }
    while i < keys.len()
        invariant
            i <= keys@.len(),
            kv == bytes_views(keys@),
            kv.len() == keys@.len(),
            bytes_views(out@) == eval_deletions(kv.take(i as int), course_views(cs@)),
        decreases keys@.len() - i,
    {
        proof {
            assert(kv[i as int] == keys@[i as int]@);
            assert(kv.take(i + 1).drop_last() =~= kv.take(i as int));
            assert(kv.take(i + 1).last() == kv[i as int]);
        }
        let ghost prev = bytes_views(out@);
        if !uses_eval_key(cs, keys[i].as_slice()) {
            let key = copy_bytes(keys[i].as_slice());
            out.push(key);
            proof {
                assert(bytes_views(out@) =~= prev.push(kv[i as int]));
            }
        }
        i = i + 1;
    }
    proof {
        assert(kv.take(kv.len() as int) =~= kv);
    }
    out
}

// ---------------------------------------------------------------------------
// Executable evaluation helpers.
// ---------------------------------------------------------------------------

proof fn lemma_eval_name_skip(es: Seq<EvaluationView>, k: Seq<u8>, i: int)
    requires
        0 <= i <= es.len(),
        forall|t: int| 0 <= t < i ==> (#[trigger] es[t]).key != k,
    ensures
        eval_name(es, k) == eval_name(es.skip(i), k),
    decreases i,
{
    if i > 0 {
        lemma_eval_name_skip(es.drop_first(), k, i - 1);
        assert(es.drop_first().skip(i - 1) =~= es.skip(i));
    } else {
        assert(es.skip(0) =~= es);
    }
}

/// The display name a course declares for an evaluation key, or the key
/// itself when the course declares none.
fn find_eval_name(es: &Vec<CourseEvaluationData>, key: &[u8]) -> (r: Vec<u8>)
    ensures
        r@ == eval_name(evaluation_views(es@), key@),
{
    let ghost esv = evaluation_views(es@);
    let mut i: usize = 0;
    while i < es.len()
        invariant
            i <= es@.len(),
            esv == evaluation_views(es@),
            esv.len() == es@.len(),
            forall|t: int| 0 <= t < i ==> (#[trigger] esv[t]).key != key@,
        decreases es@.len() - i,
    {
        proof {
            assert(esv[i as int] == es@[i as int]@);
        }
        if bytes_eq(es[i].key.as_slice(), key) {
            proof {
                lemma_eval_name_skip(esv, key@, i as int);
                assert(esv.skip(i as int)[0] == esv[i as int]);
                assert(esv.skip(i as int).len() > 0);
            }
            return copy_bytes(es[i].name.as_slice());
        }
        i = i + 1;
    }
    proof {
        lemma_eval_name_skip(esv, key@, i as int);
        assert(esv.skip(i as int).len() == 0);
    }
    copy_bytes(key)
}

/// Whether an accumulated evaluation entry already carries the key `k`.
fn eval_acc_contains_key(acc: &Vec<CourseEvaluationData>, k: &[u8]) -> (r: bool)
    ensures
        r == eval_key_in(evaluation_views(acc@), k@),
{
    let mut i: usize = 0;
    while i < acc.len()
        invariant
            i <= acc@.len(),
            forall|t: int| 0 <= t < i ==> (#[trigger] evaluation_views(acc@)[t]).key != k@,
        decreases acc@.len() - i,
    {
        proof {
            assert(evaluation_views(acc@)[i as int] == acc@[i as int]@);
        }
        if bytes_eq(acc[i].key.as_slice(), k) {
            return true;
        }
        i = i + 1;
    }
    false
}


// ---------------------------------------------------------------------------
// The diff.
// ---------------------------------------------------------------------------

/// Computes the changeset that brings the remote store in line with the
/// local tree: upserts for every course, question and option whose hash
/// does not match the snapshot, deletions for every remote entry no local
/// entity accounts for, and the reconciled evaluation set. The snapshot is
/// only read; the local tree is consumed.
pub fn compute_sync_data(courses: Vec<CourseData>, metadata: &SyncMetadata) -> (r: SyncData)
    ensures
        course_views(r.courses_to_sync@) == course_upserts(metadata@, course_views(courses@)),
        question_views(r.questions_to_sync@) == all_question_upserts(
            metadata@,
            course_views(courses@),
        ),
        option_views(r.question_options_to_sync@) == all_option_upserts(
            metadata@,
            course_views(courses@),
        ),
        evaluation_views(r.course_evaluations_to_sync@) == eval_upserts(
            metadata@,
            course_views(courses@),
            Seq::empty(),
        ),
        bytes_views(r.courses_to_delete@) == course_deletions(
            metadata@.courses,
            course_views(courses@),
        ),
        bytes_views(r.questions_to_delete@) == question_deletions(
            metadata@.questions,
            course_views(courses@),
        ),
        bytes_views(r.question_options_to_delete@) == option_deletions(
            metadata@.options,
            course_views(courses@),
        ),
        bytes_views(r.course_evaluations_to_delete@) == eval_deletions(
            metadata@.evaluations,
            course_views(courses@),
        ),
{
    let ghost cs = course_views(courses@);
    let ghost m = metadata@;
    let courses_to_delete = build_course_deletions(&metadata.courses_metadata, &courses);
    let questions_to_delete = build_question_deletions(&metadata.questions_metadata, &courses);
    let question_options_to_delete = build_option_deletions(
        &metadata.question_options_metadata,
        &courses,
    );
    let course_evaluations_to_delete = build_eval_deletions(
        &metadata.course_evaluations,
        &courses,
    );
    let mut courses_to_sync: Vec<CourseData> = Vec::new();
    let mut questions_to_sync: Vec<QuestionData> = Vec::new();
    let mut question_options_to_sync: Vec<QuestionOptionData> = Vec::new();
    let mut course_evaluations_to_sync: Vec<CourseEvaluationData> = Vec::new();
    let mut rest = courses;
    proof {
        assert(course_views(rest@) =~= cs.skip(0));
        assert(course_views(courses_to_sync@) =~= course_upserts(m, cs.take(0)));
        assert(question_views(questions_to_sync@) =~= all_question_upserts(m, cs.take(0)));
        assert(option_views(question_options_to_sync@) =~= all_option_upserts(m, cs.take(0)));
        assert(evaluation_views(course_evaluations_to_sync@) =~= eval_upserts(
            m,
            cs.take(0),
            Seq::empty(),
        ));
    }
    while rest.len() > 0
        invariant
            rest@.len() <= cs.len(),
            course_views(rest@) == cs.skip(cs.len() - rest@.len()),
            course_views(courses_to_sync@) == course_upserts(
                m,
                cs.take(cs.len() - rest@.len()),
            ),
            question_views(questions_to_sync@) == all_question_upserts(
                m,
                cs.take(cs.len() - rest@.len()),
            ),
            option_views(question_options_to_sync@) == all_option_upserts(
                m,
                cs.take(cs.len() - rest@.len()),
            ),
            evaluation_views(course_evaluations_to_sync@) == eval_upserts(
                m,
                cs.take(cs.len() - rest@.len()),
                Seq::empty(),
            ),
            m == metadata@,
        decreases rest@.len(),
    {
        let ghost ci = cs.len() - rest@.len();
        let ghost rest_pre = rest@;
        let mut c = rest.remove(0);
        proof {
            assert(course_views(rest_pre)[0] == c@);
            assert(c@ == cs[ci]);
            assert forall|t: int| 0 <= t < rest@.len() implies course_views(rest@)[t] == cs.skip(
                ci + 1,
            )[t] by {
                assert(rest@[t] == rest_pre[t + 1]);
                assert(course_views(rest_pre)[t + 1] == cs.skip(ci as int)[t + 1]);
            }
            assert(course_views(rest@) =~= cs.skip(ci + 1));
        }
        let ghost cv = cs[ci];
        let changed = !hash_matches(
            &metadata.courses_metadata,
            c.key.as_slice(),
            c.hash.as_slice(),
        );
        proof {
            assert(changed == !course_unchanged(m, cv));
        }
        let qs = c.questions.split_off(0);
        proof {
            assert(question_views(qs@) =~= cv.questions);
            assert(c@ =~~= course_shell(cv));
        }
        let ghost base_evals = eval_upserts(m, cs.take(ci as int), Seq::<EvaluationView>::empty());
        let mut qrest = qs;
        proof {
            assert(question_views(qrest@) =~= cv.questions.skip(0));
            assert(question_views(questions_to_sync@) =~= all_question_upserts(m, cs.take(
                ci as int,
            )) + question_upserts(m, cv.questions.take(0), cv.key));
            assert(option_views(question_options_to_sync@) =~= all_option_upserts(m, cs.take(
                ci as int,
            )) + course_option_upserts(m, cv.questions.take(0)));
            assert(evaluation_views(course_evaluations_to_sync@) =~= eval_upserts_course(
                m,
                cv,
                cv.questions.take(0),
                base_evals,
            ));
        }
        while qrest.len() > 0
            invariant
                qrest@.len() <= cv.questions.len(),
                question_views(qrest@) == cv.questions.skip(
                    cv.questions.len() - qrest@.len(),
                ),
                question_views(questions_to_sync@) == all_question_upserts(
                    m,
                    cs.take(ci as int),
                ) + question_upserts(
                    m,
                    cv.questions.take(cv.questions.len() - qrest@.len()),
                    cv.key,
                ),
                option_views(question_options_to_sync@) == all_option_upserts(
                    m,
                    cs.take(ci as int),
                ) + course_option_upserts(
                    m,
                    cv.questions.take(cv.questions.len() - qrest@.len()),
                ),
                evaluation_views(course_evaluations_to_sync@) == eval_upserts_course(
                    m,
                    cv,
                    cv.questions.take(cv.questions.len() - qrest@.len()),
                    base_evals,
                ),
                changed == !course_unchanged(m, cv),
                c@ == course_shell(cv),
                m == metadata@,
            decreases qrest@.len(),
        {
            let ghost qi = cv.questions.len() - qrest@.len();
            let ghost qrest_pre = qrest@;
            let mut q = qrest.remove(0);
            proof {
                assert(question_views(qrest_pre)[0] == q@);
                assert(q@ == cv.questions[qi]);
                assert forall|t: int| 0 <= t < qrest@.len() implies question_views(qrest@)[t]
                    == cv.questions.skip(qi + 1)[t] by {
                    assert(qrest@[t] == qrest_pre[t + 1]);
                    assert(question_views(qrest_pre)[t + 1] == cv.questions.skip(
                        qi as int,
                    )[t + 1]);
                }
                assert(question_views(qrest@) =~= cv.questions.skip(qi + 1));
            }
            let ghost qv = cv.questions[qi];
            let raw_eval = copy_bytes(q.evaluation.as_slice());
            let q_unchanged = hash_matches(
                &metadata.questions_metadata,
                q.id.as_slice(),
                q.hash.as_slice(),
            );
            proof {
                assert(q_unchanged == question_unchanged(m, qv));
            }
            let opts = q.question_options.split_off(0);
            proof {
                assert(option_views(opts@) =~= qv.question_options);
            }
            let mut orest = opts;
            proof {
                assert(option_views(orest@) =~= qv.question_options.skip(0));
                assert(option_views(question_options_to_sync@) =~= all_option_upserts(m, cs.take(
                    ci as int,
                )) + course_option_upserts(m, cv.questions.take(qi as int)) + option_upserts(
                    m,
                    qv.question_options.take(0),
                    qv.id,
                ));
            }
            while orest.len() > 0
                invariant
                    orest@.len() <= qv.question_options.len(),
                    option_views(orest@) == qv.question_options.skip(
                        qv.question_options.len() - orest@.len(),
                    ),
                    option_views(question_options_to_sync@) == all_option_upserts(
                        m,
                        cs.take(ci as int),
                    ) + course_option_upserts(m, cv.questions.take(qi as int)) + option_upserts(
                        m,
                        qv.question_options.take(qv.question_options.len() - orest@.len()),
                        qv.id,
                    ),
                    q.id@ == qv.id,
                    m == metadata@,
                decreases orest@.len(),
            {
                let ghost oi = qv.question_options.len() - orest@.len();
                let ghost orest_pre = orest@;
                let mut o = orest.remove(0);
                proof {
                    assert(option_views(orest_pre)[0] == o@);
                    assert(o@ == qv.question_options[oi]);
                    assert forall|t: int| 0 <= t < orest@.len() implies option_views(orest@)[t]
                        == qv.question_options.skip(oi + 1)[t] by {
                        assert(orest@[t] == orest_pre[t + 1]);
                        assert(option_views(orest_pre)[t + 1] == qv.question_options.skip(
                            oi as int,
                        )[t + 1]);
                    }
                    assert(option_views(orest@) =~= qv.question_options.skip(oi + 1));
                }
                let ghost ov = qv.question_options[oi];
                let o_unchanged = hash_matches(
                    &metadata.question_options_metadata,
                    o.id.as_slice(),
                    o.hash.as_slice(),
                );
                proof {
                    assert(o_unchanged == option_unchanged(m, ov));
                    assert(qv.question_options.take(oi + 1).drop_last()
                        =~= qv.question_options.take(oi as int));
                    assert(qv.question_options.take(oi + 1).last() == ov);
                }
                let ghost prev_opts = option_views(question_options_to_sync@);
                if !o_unchanged {
                    o.set_question_id(copy_bytes(q.id.as_slice()));
                    proof {
                        assert(o@ =~~= bound_option(ov, qv.id));
                    }
                    question_options_to_sync.push(o);
                    proof {
                        assert(option_views(question_options_to_sync@) =~= prev_opts.push(
                            bound_option(ov, qv.id),
                        ));
                    }
                }
            }
            proof {
                assert(qv.question_options.take(qv.question_options.len() as int)
                    =~= qv.question_options);
            }
            q.set_course_key(copy_bytes(c.key.as_slice()));
            proof {
                assert(q@ =~~= bound_question(qv, cv.key));
                assert(cv.questions.take(qi + 1).drop_last() =~= cv.questions.take(qi as int));
                assert(cv.questions.take(qi + 1).last() == qv);
            }
            let ghost prev_evals = evaluation_views(course_evaluations_to_sync@);
            if changed || !q_unchanged {
                let fkey = CourseEvaluationData::full_key(c.key.as_slice(), raw_eval.as_slice());
                let dup = eval_acc_contains_key(&course_evaluations_to_sync, fkey.as_slice());
                if !dup {
                    let name = find_eval_name(&c.evaluations, raw_eval.as_slice());
                    let hash = blake3_hex(name.as_slice());
                    let entry = CourseEvaluationData {
                        course_key: Some(copy_bytes(c.key.as_slice())),
                        key: fkey,
                        name,
                        hash,
                    };
                    proof {
                        assert(evaluation_views(c.evaluations@) == cv.evaluations);
                        assert(entry@ =~~= eval_entry(cv, qv.evaluation));
                    }
                    course_evaluations_to_sync.push(entry);
                    proof {
                        assert(evaluation_views(course_evaluations_to_sync@) =~= prev_evals.push(
                            eval_entry(cv, qv.evaluation),
                        ));
                    }
                }
            }
            let ghost prev_questions = question_views(questions_to_sync@);
            if !q_unchanged {
                questions_to_sync.push(q);
                proof {
                    assert(question_views(questions_to_sync@) =~= prev_questions.push(
                        bound_question(qv, cv.key),
                    ));
                }
            }
        }
        proof {
            assert(cv.questions.take(cv.questions.len() as int) =~= cv.questions);
            assert(cs.take(ci + 1).drop_last() =~= cs.take(ci as int));
            assert(cs.take(ci + 1).last() == cv);
        }
        let ghost prev_courses = course_views(courses_to_sync@);
        if changed {
            courses_to_sync.push(c);
            proof {
                assert(course_views(courses_to_sync@) =~= prev_courses.push(course_shell(cv)));
            }
        }
    }
    proof {
        assert(cs.take(cs.len() as int) =~= cs);
    }
    SyncData {
        courses_to_sync,
        courses_to_delete,
        questions_to_sync,
        questions_to_delete,
        question_options_to_sync,
        question_options_to_delete,
        course_evaluations_to_sync,
        course_evaluations_to_delete,
    }
}


// ---------------------------------------------------------------------------
// The full-match law.
// ---------------------------------------------------------------------------

proof fn lemma_course_upserts_empty(m: MetadataView, cs: Seq<CourseView>)
    requires
        forall|i: int| 0 <= i < cs.len() ==> course_unchanged(m, #[trigger] cs[i]),
    ensures
        course_upserts(m, cs) == Seq::<CourseView>::empty(),
    decreases cs.len(),
{
    if cs.len() > 0 {
        lemma_course_upserts_empty(m, cs.drop_last());
    }
}

proof fn lemma_question_upserts_empty(m: MetadataView, qs: Seq<QuestionView>, ck: Seq<u8>)
    requires
        forall|j: int| 0 <= j < qs.len() ==> question_unchanged(m, #[trigger] qs[j]),
    ensures
        question_upserts(m, qs, ck) == Seq::<QuestionView>::empty(),
    decreases qs.len(),
{
    if qs.len() > 0 {
        lemma_question_upserts_empty(m, qs.drop_last(), ck);
    }
}

proof fn lemma_all_question_upserts_empty(m: MetadataView, cs: Seq<CourseView>)
    requires
        forall|i: int, j: int|
            0 <= i < cs.len() && 0 <= j < cs[i].questions.len() ==> question_unchanged(
                m,
                #[trigger] cs[i].questions[j],
            ),
    ensures
        all_question_upserts(m, cs) == Seq::<QuestionView>::empty(),
    decreases cs.len(),
{
    if cs.len() > 0 {
        lemma_all_question_upserts_empty(m, cs.drop_last());
        let c = cs.last();
        assert(forall|j: int|
            0 <= j < c.questions.len() ==> question_unchanged(
                m,
                #[trigger] cs[cs.len() - 1].questions[j],
            ));
        lemma_question_upserts_empty(m, c.questions, c.key);
        assert(all_question_upserts(m, cs) =~= Seq::<QuestionView>::empty());
    }
}

proof fn lemma_option_upserts_empty(m: MetadataView, os: Seq<OptionView>, qid: Seq<u8>)
    requires
        forall|l: int| 0 <= l < os.len() ==> option_unchanged(m, #[trigger] os[l]),
    ensures
        option_upserts(m, os, qid) == Seq::<OptionView>::empty(),
    decreases os.len(),
{
    if os.len() > 0 {
        lemma_option_upserts_empty(m, os.drop_last(), qid);
    }
}

proof fn lemma_course_option_upserts_empty(m: MetadataView, qs: Seq<QuestionView>)
    requires
        forall|j: int, l: int|
            0 <= j < qs.len() && 0 <= l < qs[j].question_options.len() ==> option_unchanged(
                m,
                #[trigger] qs[j].question_options[l],
            ),
    ensures
        course_option_upserts(m, qs) == Seq::<OptionView>::empty(),
    decreases qs.len(),
{
    if qs.len() > 0 {
        lemma_course_option_upserts_empty(m, qs.drop_last());
        let q = qs.last();
        assert(forall|l: int|
            0 <= l < q.question_options.len() ==> option_unchanged(
                m,
                #[trigger] qs[qs.len() - 1].question_options[l],
            ));
        lemma_option_upserts_empty(m, q.question_options, q.id);
        assert(course_option_upserts(m, qs) =~= Seq::<OptionView>::empty());
    }
}

proof fn lemma_all_option_upserts_empty(m: MetadataView, cs: Seq<CourseView>)
    requires
        forall|i: int, j: int, l: int|
            0 <= i < cs.len() && 0 <= j < cs[i].questions.len() && 0 <= l
                < cs[i].questions[j].question_options.len() ==> option_unchanged(
                m,
                #[trigger] cs[i].questions[j].question_options[l],
            ),
    ensures
        all_option_upserts(m, cs) == Seq::<OptionView>::empty(),
    decreases cs.len(),
{
    if cs.len() > 0 {
        lemma_all_option_upserts_empty(m, cs.drop_last());
        let c = cs.last();
        assert(forall|j: int, l: int|
            0 <= j < c.questions.len() && 0 <= l < c.questions[j].question_options.len()
                ==> option_unchanged(
                m,
                #[trigger] cs[cs.len() - 1].questions[j].question_options[l],
            ));
        lemma_course_option_upserts_empty(m, c.questions);
        assert(all_option_upserts(m, cs) =~= Seq::<OptionView>::empty());
    }
}

proof fn lemma_eval_upserts_course_unchanged(
    m: MetadataView,
    c: CourseView,
    qs: Seq<QuestionView>,
    acc: Seq<EvaluationView>,
)
    requires
        course_unchanged(m, c),
        forall|j: int| 0 <= j < qs.len() ==> question_unchanged(m, #[trigger] qs[j]),
    ensures
        eval_upserts_course(m, c, qs, acc) == acc,
    decreases qs.len(),
{
    if qs.len() > 0 {
        lemma_eval_upserts_course_unchanged(m, c, qs.drop_last(), acc);
    }
}

proof fn lemma_eval_upserts_unchanged(m: MetadataView, cs: Seq<CourseView>, acc: Seq<EvaluationView>)
    requires
        forall|i: int| 0 <= i < cs.len() ==> course_unchanged(m, #[trigger] cs[i]),
        forall|i: int, j: int|
            0 <= i < cs.len() && 0 <= j < cs[i].questions.len() ==> question_unchanged(
                m,
                #[trigger] cs[i].questions[j],
            ),
    ensures
        eval_upserts(m, cs, acc) == acc,
    decreases cs.len(),
{
    if cs.len() > 0 {
        lemma_eval_upserts_unchanged(m, cs.drop_last(), acc);
        let c = cs.last();
        assert(forall|j: int|
            0 <= j < c.questions.len() ==> question_unchanged(
                m,
                #[trigger] cs[cs.len() - 1].questions[j],
            ));
        lemma_eval_upserts_course_unchanged(m, c, c.questions, acc);
    }
}

proof fn lemma_course_deletions_empty(entries: Seq<(Seq<u8>, Seq<u8>)>, cs: Seq<CourseView>)
    requires
        forall|t: int|
            0 <= t < entries.len() ==> course_key_present(cs, (#[trigger] entries[t]).0),
    ensures
        course_deletions(entries, cs) == Seq::<Seq<u8>>::empty(),
    decreases entries.len(),
{
    if entries.len() > 0 {
        lemma_course_deletions_empty(entries.drop_last(), cs);
    }
}

proof fn lemma_question_deletions_empty(entries: Seq<(Seq<u8>, Seq<u8>)>, cs: Seq<CourseView>)
    requires
        forall|t: int|
            0 <= t < entries.len() ==> question_id_present(cs, (#[trigger] entries[t]).0),
    ensures
        question_deletions(entries, cs) == Seq::<Seq<u8>>::empty(),
    decreases entries.len(),
{
    if entries.len() > 0 {
        lemma_question_deletions_empty(entries.drop_last(), cs);
    }
}

proof fn lemma_option_deletions_empty(entries: Seq<(Seq<u8>, Seq<u8>)>, cs: Seq<CourseView>)
    requires
        forall|t: int|
            0 <= t < entries.len() ==> option_id_present(cs, (#[trigger] entries[t]).0),
    ensures
        option_deletions(entries, cs) == Seq::<Seq<u8>>::empty(),
    decreases entries.len(),
{
    if entries.len() > 0 {
        lemma_option_deletions_empty(entries.drop_last(), cs);
    }
}

proof fn lemma_eval_deletions_empty(keys: Seq<Seq<u8>>, cs: Seq<CourseView>)
    requires
        forall|t: int| 0 <= t < keys.len() ==> eval_key_used(cs, #[trigger] keys[t]),
    ensures
        eval_deletions(keys, cs) == Seq::<Seq<u8>>::empty(),
    decreases keys.len(),
{
    if keys.len() > 0 {
        lemma_eval_deletions_empty(keys.drop_last(), cs);
    }
}

/// On a full match — every local hash equal to its remote entry at every
/// level, every remote entry accounted for by a local entity and every
/// remote evaluation key still referenced — the changeset is entirely
/// empty, in all eight parts.
pub proof fn lemma_full_match_empty_changeset(m: MetadataView, cs: Seq<CourseView>)
    requires
        forall|i: int| 0 <= i < cs.len() ==> course_unchanged(m, #[trigger] cs[i]),
        forall|i: int, j: int|
            0 <= i < cs.len() && 0 <= j < cs[i].questions.len() ==> question_unchanged(
                m,
                #[trigger] cs[i].questions[j],
            ),
        forall|i: int, j: int, l: int|
            0 <= i < cs.len() && 0 <= j < cs[i].questions.len() && 0 <= l
                < cs[i].questions[j].question_options.len() ==> option_unchanged(
                m,
                #[trigger] cs[i].questions[j].question_options[l],
            ),
        forall|t: int|
            0 <= t < m.courses.len() ==> course_key_present(cs, (#[trigger] m.courses[t]).0),
        forall|t: int|
            0 <= t < m.questions.len() ==> question_id_present(cs, (#[trigger] m.questions[t]).0),
        forall|t: int|
            0 <= t < m.options.len() ==> option_id_present(cs, (#[trigger] m.options[t]).0),
        forall|t: int| 0 <= t < m.evaluations.len() ==> eval_key_used(cs, #[trigger] m.evaluations[t]),
    ensures
        course_upserts(m, cs) == Seq::<CourseView>::empty(),
        all_question_upserts(m, cs) == Seq::<QuestionView>::empty(),
        all_option_upserts(m, cs) == Seq::<OptionView>::empty(),
        eval_upserts(m, cs, Seq::<EvaluationView>::empty()) == Seq::<EvaluationView>::empty(),
        course_deletions(m.courses, cs) == Seq::<Seq<u8>>::empty(),
        question_deletions(m.questions, cs) == Seq::<Seq<u8>>::empty(),
        option_deletions(m.options, cs) == Seq::<Seq<u8>>::empty(),
        eval_deletions(m.evaluations, cs) == Seq::<Seq<u8>>::empty(),
{
    lemma_course_upserts_empty(m, cs);
    lemma_all_question_upserts_empty(m, cs);
    lemma_all_option_upserts_empty(m, cs);
    lemma_eval_upserts_unchanged(m, cs, Seq::<EvaluationView>::empty());
    lemma_course_deletions_empty(m.courses, cs);
    lemma_question_deletions_empty(m.questions, cs);
    lemma_option_deletions_empty(m.options, cs);
    lemma_eval_deletions_empty(m.evaluations, cs);
}


// ---------------------------------------------------------------------------
// Membership laws of the diff.
// ---------------------------------------------------------------------------

/// A question the snapshot has never seen — or whose remote hash is stale —
/// is always sent, whatever the state of its course.
pub proof fn lemma_changed_question_sent(
    m: MetadataView,
    qs: Seq<QuestionView>,
    ck: Seq<u8>,
    j: int,
)
    requires
        0 <= j < qs.len(),
        !question_unchanged(m, qs[j]),
    ensures
        question_upserts(m, qs, ck).contains(bound_question(qs[j], ck)),
    decreases qs.len(),
{
    let r = question_upserts(m, qs, ck);
    let prev = question_upserts(m, qs.drop_last(), ck);
    if j == qs.len() - 1 {
        assert(r == prev.push(bound_question(qs[j], ck)));
        assert(r[r.len() - 1] == bound_question(qs[j], ck));
    } else {
        assert(qs.drop_last()[j] == qs[j]);
        lemma_changed_question_sent(m, qs.drop_last(), ck, j);
        let t = choose|t: int| 0 <= t < prev.len() && prev[t] == bound_question(qs[j], ck);
        assert(r[t] == bound_question(qs[j], ck));
    }
}

/// A remote course key is deleted exactly when no local course carries it.
pub proof fn lemma_course_deletion_characterization(
    entries: Seq<(Seq<u8>, Seq<u8>)>,
    cs: Seq<CourseView>,
    k: Seq<u8>,
)
    ensures
        course_deletions(entries, cs).contains(k) <==> (!course_key_present(cs, k) && exists|t: int|
            0 <= t < entries.len() && (#[trigger] entries[t]).0 == k),
    decreases entries.len(),
{
    let r = course_deletions(entries, cs);
    if entries.len() > 0 {
        lemma_course_deletion_characterization(entries.drop_last(), cs, k);
        let prev = course_deletions(entries.drop_last(), cs);
        let last = entries.last();
        assert(forall|t: int|
            0 <= t < entries.len() - 1 ==> (#[trigger] entries.drop_last()[t]) == entries[t]);
        if exists|t: int|
            0 <= t < entries.drop_last().len() && (#[trigger] entries.drop_last()[t]).0 == k {
            let t = choose|t: int|
                0 <= t < entries.drop_last().len() && (#[trigger] entries.drop_last()[t]).0 == k;
            assert(entries[t].0 == k);
        }
        if exists|t: int| 0 <= t < entries.len() && (#[trigger] entries[t]).0 == k {
            let t = choose|t: int| 0 <= t < entries.len() && (#[trigger] entries[t]).0 == k;
            if t < entries.len() - 1 {
                assert(entries.drop_last()[t].0 == k);
            } else {
                assert(entries.last().0 == k);
            }
        }
        if course_key_present(cs, last.0) {
            assert(r == prev);
            if r.contains(k) {
                assert(k != last.0 || !course_key_present(cs, k) == false);
            }
            if !course_key_present(cs, k) && exists|t: int|
                0 <= t < entries.len() && (#[trigger] entries[t]).0 == k {
                let t = choose|t: int| 0 <= t < entries.len() && (#[trigger] entries[t]).0 == k;
                assert(t < entries.len() - 1);
            }
        } else {
            assert(r == prev.push(last.0));
            if prev.contains(k) {
                let t = choose|t: int| 0 <= t < prev.len() && prev[t] == k;
                assert(r[t] == k);
            }
            if r.contains(k) {
                let t = choose|t: int| 0 <= t < r.len() && r[t] == k;
                if t < prev.len() {
                    assert(prev[t] == k);
                } else {
                    assert(k == last.0);
                    assert(entries[entries.len() - 1].0 == k);
                }
            }
            if k == last.0 {
                assert(r[r.len() - 1] == k);
            }
        }
    }
}

/// A remote question id is deleted exactly when no local question carries
/// it, whatever its hash says.
pub proof fn lemma_question_deletion_characterization(
    entries: Seq<(Seq<u8>, Seq<u8>)>,
    cs: Seq<CourseView>,
    k: Seq<u8>,
)
    ensures
        question_deletions(entries, cs).contains(k) <==> (!question_id_present(cs, k)
            && exists|t: int| 0 <= t < entries.len() && (#[trigger] entries[t]).0 == k),
    decreases entries.len(),
{
    let r = question_deletions(entries, cs);
    if entries.len() > 0 {
        lemma_question_deletion_characterization(entries.drop_last(), cs, k);
        let prev = question_deletions(entries.drop_last(), cs);
        let last = entries.last();
        assert(forall|t: int|
            0 <= t < entries.len() - 1 ==> (#[trigger] entries.drop_last()[t]) == entries[t]);
        if exists|t: int|
            0 <= t < entries.drop_last().len() && (#[trigger] entries.drop_last()[t]).0 == k {
            let t = choose|t: int|
                0 <= t < entries.drop_last().len() && (#[trigger] entries.drop_last()[t]).0 == k;
            assert(entries[t].0 == k);
        }
        if exists|t: int| 0 <= t < entries.len() && (#[trigger] entries[t]).0 == k {
            let t = choose|t: int| 0 <= t < entries.len() && (#[trigger] entries[t]).0 == k;
            if t < entries.len() - 1 {
                assert(entries.drop_last()[t].0 == k);
            } else {
                assert(entries.last().0 == k);
            }
        }
        if question_id_present(cs, last.0) {
            assert(r == prev);
            if !question_id_present(cs, k) && exists|t: int|
                0 <= t < entries.len() && (#[trigger] entries[t]).0 == k {
                let t = choose|t: int| 0 <= t < entries.len() && (#[trigger] entries[t]).0 == k;
                assert(t < entries.len() - 1);
            }
        } else {
            assert(r == prev.push(last.0));
            if prev.contains(k) {
                let t = choose|t: int| 0 <= t < prev.len() && prev[t] == k;
                assert(r[t] == k);
            }
            if r.contains(k) {
                let t = choose|t: int| 0 <= t < r.len() && r[t] == k;
                if t < prev.len() {
                    assert(prev[t] == k);
                } else {
                    assert(k == last.0);
                    assert(entries[entries.len() - 1].0 == k);
                }
            }
            if k == last.0 {
                assert(r[r.len() - 1] == k);
            }
        }
    }
}

/// A remote option id is deleted exactly when no local option carries it.
pub proof fn lemma_option_deletion_characterization(
    entries: Seq<(Seq<u8>, Seq<u8>)>,
    cs: Seq<CourseView>,
    k: Seq<u8>,
)
    ensures
        option_deletions(entries, cs).contains(k) <==> (!option_id_present(cs, k) && exists|t: int|
            0 <= t < entries.len() && (#[trigger] entries[t]).0 == k),
    decreases entries.len(),
{
    let r = option_deletions(entries, cs);
    if entries.len() > 0 {
        lemma_option_deletion_characterization(entries.drop_last(), cs, k);
        let prev = option_deletions(entries.drop_last(), cs);
        let last = entries.last();
        assert(forall|t: int|
            0 <= t < entries.len() - 1 ==> (#[trigger] entries.drop_last()[t]) == entries[t]);
        if exists|t: int|
            0 <= t < entries.drop_last().len() && (#[trigger] entries.drop_last()[t]).0 == k {
            let t = choose|t: int|
                0 <= t < entries.drop_last().len() && (#[trigger] entries.drop_last()[t]).0 == k;
            assert(entries[t].0 == k);
        }
        if exists|t: int| 0 <= t < entries.len() && (#[trigger] entries[t]).0 == k {
            let t = choose|t: int| 0 <= t < entries.len() && (#[trigger] entries[t]).0 == k;
            if t < entries.len() - 1 {
                assert(entries.drop_last()[t].0 == k);
            } else {
                assert(entries.last().0 == k);
            }
        }
        if option_id_present(cs, last.0) {
            assert(r == prev);
            if !option_id_present(cs, k) && exists|t: int|
                0 <= t < entries.len() && (#[trigger] entries[t]).0 == k {
                let t = choose|t: int| 0 <= t < entries.len() && (#[trigger] entries[t]).0 == k;
                assert(t < entries.len() - 1);
            }
        } else {
            assert(r == prev.push(last.0));
            if prev.contains(k) {
                let t = choose|t: int| 0 <= t < prev.len() && prev[t] == k;
                assert(r[t] == k);
            }
            if r.contains(k) {
                let t = choose|t: int| 0 <= t < r.len() && r[t] == k;
                if t < prev.len() {
                    assert(prev[t] == k);
                } else {
                    assert(k == last.0);
                    assert(entries[entries.len() - 1].0 == k);
                }
            }
            if k == last.0 {
                assert(r[r.len() - 1] == k);
            }
        }
    }
}

/// A remote evaluation key is deleted exactly when no surviving question
/// references it.
pub proof fn lemma_eval_deletion_characterization(
    keys: Seq<Seq<u8>>,
    cs: Seq<CourseView>,
    k: Seq<u8>,
)
    ensures
        eval_deletions(keys, cs).contains(k) <==> (!eval_key_used(cs, k) && keys.contains(k)),
    decreases keys.len(),
{
    let r = eval_deletions(keys, cs);
    if keys.len() > 0 {
        lemma_eval_deletion_characterization(keys.drop_last(), cs, k);
        let prev = eval_deletions(keys.drop_last(), cs);
        let last = keys.last();
        assert(forall|t: int|
            0 <= t < keys.len() - 1 ==> (#[trigger] keys.drop_last()[t]) == keys[t]);
        if keys.drop_last().contains(k) {
            let t = choose|t: int| 0 <= t < keys.len() - 1 && keys.drop_last()[t] == k;
            assert(keys[t] == k);
        }
        if eval_key_used(cs, last) {
            assert(r == prev);
            if !eval_key_used(cs, k) && keys.contains(k) {
                let t = choose|t: int| 0 <= t < keys.len() && keys[t] == k;
                assert(t < keys.len() - 1);
                assert(keys.drop_last()[t] == k);
            }
        } else {
            assert(r == prev.push(last));
            if prev.contains(k) {
                let t = choose|t: int| 0 <= t < prev.len() && prev[t] == k;
                assert(r[t] == k);
            }
            if r.contains(k) {
                let t = choose|t: int| 0 <= t < r.len() && r[t] == k;
                if t < prev.len() {
                    assert(prev[t] == k);
                } else {
                    assert(k == last);
                    assert(keys[keys.len() - 1] == k);
                }
            }
            if k == last {
                assert(r[r.len() - 1] == k);
            }
            if !eval_key_used(cs, k) && keys.contains(k) && k != last {
                let t = choose|t: int| 0 <= t < keys.len() && keys[t] == k;
                assert(t < keys.len() - 1);
                assert(keys.drop_last()[t] == k);
            }
        }
    }
}

} // verus!
