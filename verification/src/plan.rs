//! Which chapters are spoken, and into which files.
use crate::sanitize::{sanitize_for_tts, sanitized};
use crate::text::{
    chars_of, decimal, decimal_text, is_digit, lemma_zero_padded_reads_back, optional_text,
    padded_decimal_text, trim, trimmed, zero_padded,
};
use vstd::prelude::*;
use vstd::string::*;

verus! {

/// The title of a chapter that has none.
pub const DEFAULT_TITLE: &'static str = "章节";

/// How many digits the number of a chapter has at least.
pub const NUMBER_WIDTH: usize = 4;

/// What a field in the list of chapters holds.
pub enum FieldValue {
    /// A string.
    Text(String),
    /// A non-negative integer.
    Number(u64),
    /// Anything else.
    Other,
}

/// An entry in the list of chapters, as far as it is read.
pub struct ChapterEntry {
    pub id: Option<FieldValue>,
    pub title: Option<FieldValue>,
}

/// A chapter that was downloaded.
pub struct StoredChapter {
    pub title: String,
    pub content: Option<String>,
}

/// A chapter that is to be spoken.
pub struct ChapterText {
    pub title: String,
    pub text: String,
}

/// A chapter that is to be spoken, and where its audio goes.
pub struct ChapterJob {
    /// The place of the chapter in the book, from 1 on.
    pub idx: usize,
    pub title: String,
    pub text: String,
    /// The name of the audio file.
    pub file_name: String,
    /// The name that the file has while it is written.
    pub tmp_name: String,
}

/// What is known of a file.
#[derive(Debug, Clone, Copy)]
pub struct FileMeta {
    pub is_file: bool,
    pub len: u64,
}

/// The work on a book.
pub struct WorkPlan {
    /// What is to be spoken.
    pub jobs: Vec<ChapterJob>,
    /// For each chapter whose audio is there already, the name that it had while it was written:
    /// what is left under that name can go.
    pub finished: Vec<String>,
}

/// The name under which the book goes: its identifier where it has no name.
pub open spec fn book_title(name: Seq<char>, id: Seq<char>) -> Seq<char> {
    if trim(name).len() == 0 {
        id
    } else {
        name
    }
}

/// Tests whether nothing but white space is written.
fn is_blank(s: &str) -> (r: bool)
    ensures
        r == (trim(s@).len() == 0),
{
    trimmed(chars_of(s).as_slice()).len() == 0
}

/// The name under which the book goes: its identifier where it has no name.
pub fn book_name_or_id<'a>(name: &'a str, id: &'a str) -> (r: &'a str)
    ensures
        r@ == book_title(name@, id@),
{
    if is_blank(name) {
        id
    } else {
        name
    }
}

/// The name of the directory for the audio files of a book, given its name as a file name.
pub fn audio_dir_name(safe_book: &str) -> (r: String)
    ensures
        r@ == safe_book@ + "_audio"@,
{
    let mut name: String = safe_book.to_string();
    name.append("_audio");
    name
}

/// The key under which the chapter of an entry is stored.
pub open spec fn entry_key(entry: ChapterEntry) -> Option<Seq<char>> {
    match entry.id {
        Some(FieldValue::Text(s)) => Some(s@),
        Some(FieldValue::Number(n)) => Some(decimal(n as nat)),
        _ => None,
    }
}

/// The title that an entry gives its chapter.
pub open spec fn entry_title(entry: ChapterEntry) -> Seq<char> {
    match entry.title {
        Some(FieldValue::Text(s)) => s@,
        _ => DEFAULT_TITLE@,
    }
}

/// The key under which the chapter of an entry is stored.
pub fn chapter_key(entry: &ChapterEntry) -> (r: Option<String>)
    ensures
        optional_text(r) == entry_key(*entry),
{
    match &entry.id {
        Some(FieldValue::Text(s)) => Some(s.as_str().to_string()),
        Some(FieldValue::Number(n)) => Some(decimal_text(*n)),
        _ => None,
    }
}

/// A stored chapter, taken as its title and its content.
pub open spec fn stored_view(stored: Option<StoredChapter>) -> Option<
    (Seq<char>, Option<Seq<char>>),
> {
    match stored {
        Some(s) => Some((s.title@, optional_text(s.content))),
        None => None,
    }
}

/// The title of a chapter: the stored one, or that of the entry where the stored one is blank.
pub open spec fn chosen_title(entry: ChapterEntry, stored_title: Seq<char>) -> Seq<char> {
    if trim(stored_title).len() == 0 {
        entry_title(entry)
    } else {
        stored_title
    }
}

/// The title and the text of a chapter that is to be spoken, or `None` where there is nothing to
/// speak: the chapter is not stored, or its content is missing or blank, or nothing but white space
/// stays of its text.
pub open spec fn spoken_chapter(
    entry: ChapterEntry,
    stored: Option<(Seq<char>, Option<Seq<char>>)>,
) -> Option<(Seq<char>, Seq<char>)> {
    match stored {
        Some((stored_title, Some(content))) => {
            let title = chosen_title(entry, stored_title);
            let text = sanitized(title, content);
            if trim(content).len() == 0 || trim(text).len() == 0 {
                None
            } else {
                Some((title, text))
            }
        },
        _ => None,
    }
}

/// The title and the text of a chapter that is to be spoken.
pub open spec fn chapter_view(chapter: Option<ChapterText>) -> Option<(Seq<char>, Seq<char>)> {
    match chapter {
        Some(c) => Some((c.title@, c.text@)),
        None => None,
    }
}

/// Works out what is to be spoken of a chapter, given what is stored of it.
pub fn chapter_text(entry: &ChapterEntry, stored: &Option<StoredChapter>) -> (r: Option<
    ChapterText,
>)
    ensures
        chapter_view(r) == spoken_chapter(*entry, stored_view(*stored)),
        r is None <==> {
            ||| stored is None
            ||| stored->0.content is None
            ||| trim(stored->0.content->0@).len() == 0
            ||| trim(
                sanitized(chosen_title(*entry, stored->0.title@), stored->0.content->0@),
            ).len() == 0
        },
{
    let (stored_title, content): (&str, &str) = match stored {
        Some(s) => match &s.content {
            Some(content) => (s.title.as_str(), content.as_str()),
            None => {
                return None;
            },
        },
        None => {
            return None;
        },
    };
    if is_blank(content) {
        return None;
    }
    let title: &str = if !is_blank(stored_title) {
        stored_title
    } else {
        match &entry.title {
            Some(FieldValue::Text(s)) => s.as_str(),
            _ => DEFAULT_TITLE,
        }
    };
    let text: String = sanitize_for_tts(title, content);
    if is_blank(text.as_str()) {
        return None;
    }
    Some(ChapterText { title: title.to_string(), text })
}

/// The name of the audio file of the chapter `idx`: its number, its title as a file name, and the
/// extension of the audio format.
pub open spec fn audio_file_name(idx: nat, safe_title: Seq<char>, ext: Seq<char>) -> Seq<char> {
    zero_padded(decimal(idx), NUMBER_WIDTH as nat) + "-"@ + safe_title + "."@ + ext
}

/// The name that a file has while it is written.
pub open spec fn partial_name(file_name: Seq<char>) -> Seq<char> {
    file_name + ".partial"@
}

/// Whether a file that is there already can stay.
pub open spec fn reusable(meta: Option<FileMeta>) -> bool {
    meta matches Some(m) && m.is_file && m.len > 0
}

/// Tests whether audio that is there already can stay: it is a file, and it is not empty.
pub fn existing_audio_is_reusable(meta: Option<FileMeta>) -> (r: bool)
    ensures
        r == reusable(meta),
{
    match meta {
        Some(m) => m.is_file && m.len > 0,
        None => false,
    }
}

/// The name of the audio file of the chapter `idx`.
pub fn chapter_file_name(idx: usize, safe_title: &str, ext: &str) -> (r: String)
    ensures
        r@ == audio_file_name(idx as nat, safe_title@, ext@),
{
    let mut name: String = padded_decimal_text(idx as u64, NUMBER_WIDTH);
    name.append("-");
    name.append(safe_title);
    name.append(".");
    name.append(ext);
    name
}

/// The name that a file has while it is written.
pub fn partial_file_name(file_name: &str) -> (r: String)
    ensures
        r@ == partial_name(file_name@),
{
    let mut name: String = file_name.to_string();
    name.append(".partial");
    name
}

/// What is learned of a chapter while the work on a book is planned.
pub struct ChapterAnswer {
    /// The title and the content that are stored.
    pub stored: Option<(Seq<char>, Option<Seq<char>>)>,
    /// Its title as a file name.
    pub safe_title: Seq<char>,
    /// What is known of its audio file.
    pub existing: Option<FileMeta>,
}

/// A job, taken as its values.
pub struct JobView {
    pub idx: nat,
    pub title: Seq<char>,
    pub text: Seq<char>,
    pub file_name: Seq<char>,
    pub tmp_name: Seq<char>,
}

/// The work on a book, taken as its values.
#[verifier::ext_equal]
pub struct PlanView {
    pub jobs: Seq<JobView>,
    pub finished: Seq<Seq<char>>,
}

/// A job, taken as its values.
pub open spec fn job_view(job: ChapterJob) -> JobView {
    JobView {
        idx: job.idx as nat,
        title: job.title@,
        text: job.text@,
        file_name: job.file_name@,
        tmp_name: job.tmp_name@,
    }
}

/// The work on a book, taken as its values.
pub open spec fn plan_view(plan: WorkPlan) -> PlanView {
    PlanView {
        jobs: Seq::new(plan.jobs@.len(), |i: int| job_view(plan.jobs@[i])),
        finished: Seq::new(plan.finished@.len(), |i: int| plan.finished@[i]@),
    }
}

/// The plan with one more chapter that is to be spoken: it is finished where its audio file is
/// there already and can stay, else it is a job.
pub open spec fn with_chapter(
    before: PlanView,
    idx: nat,
    title: Seq<char>,
    text: Seq<char>,
    file_name: Seq<char>,
    existing: Option<FileMeta>,
) -> PlanView {
    let tmp_name = partial_name(file_name);
    if reusable(existing) {
        PlanView { jobs: before.jobs, finished: before.finished.push(tmp_name) }
    } else {
        PlanView {
            jobs: before.jobs.push(JobView { idx, title, text, file_name, tmp_name }),
            finished: before.finished,
        }
    }
}

/// The work on the chapters of a book, given what is learned of each; a chapter is numbered by its
/// place in the list, also where chapters before it are not spoken.
pub open spec fn planned(
    entries: Seq<ChapterEntry>,
    answers: Seq<ChapterAnswer>,
    ext: Seq<char>,
) -> PlanView
    decreases entries.len(),
{
    if entries.len() == 0 {
        PlanView { jobs: Seq::empty(), finished: Seq::empty() }
    } else {
        let before = planned(entries.drop_last(), answers.drop_last(), ext);
        let answer = answers.last();
        match spoken_chapter(entries.last(), answer.stored) {
            None => before,
            Some((title, text)) => with_chapter(
                before,
                entries.len(),
                title,
                text,
                audio_file_name(entries.len(), answer.safe_title, ext),
                answer.existing,
            ),
        }
    }
}

/// Adds a chapter to the plan, given the name of its audio file and what is known of that file.
pub fn add_chapter(
    plan: &mut WorkPlan,
    idx: usize,
    chapter: ChapterText,
    file_name: String,
    existing: Option<FileMeta>,
)
    ensures
        plan_view(*final(plan)) == with_chapter(
            plan_view(*old(plan)),
            idx as nat,
            chapter.title@,
            chapter.text@,
            file_name@,
            existing,
        ),
{
    let tmp_name: String = partial_file_name(file_name.as_str());
    let ghost before = plan_view(*plan);
    if existing_audio_is_reusable(existing) {
        let ghost tmp = tmp_name@;
        plan.finished.push(tmp_name);
        assert(plan_view(*plan) =~= PlanView {
            jobs: before.jobs,
            finished: before.finished.push(tmp),
        });
    } else {
        let job = ChapterJob {
            idx,
            title: chapter.title,
            text: chapter.text,
            file_name,
            tmp_name,
        };
        plan.jobs.push(job);
        assert(plan_view(*plan) =~= PlanView {
            jobs: before.jobs.push(job_view(job)),
            finished: before.finished,
        });
    }
}

/// Whether `x` is an answer of `lookup` for the key `t`.
pub open spec fn looks_up<L: Fn(&str) -> Option<StoredChapter>>(
    lookup: L,
    t: &str,
    x: Option<StoredChapter>,
) -> bool {
    call_ensures(lookup, (t,), x)
}

/// Whether `x` is an answer of `safe_name` for the title `t`.
pub open spec fn makes_safe<S: Fn(&str) -> String>(safe_name: S, t: &str, x: String) -> bool {
    call_ensures(safe_name, (t,), x)
}

/// Whether `x` is an answer of `describe` for the file name `t`.
pub open spec fn describes<M: Fn(&str) -> Option<FileMeta>>(
    describe: M,
    t: &str,
    x: Option<FileMeta>,
) -> bool {
    call_ensures(describe, (t,), x)
}

/// Whether what is stored of the chapter of an entry is what `lookup` answers for its key; of an
/// entry without a key nothing is stored.
pub open spec fn stored_answered<L: Fn(&str) -> Option<StoredChapter>>(
    lookup: L,
    entry: ChapterEntry,
    stored: Option<(Seq<char>, Option<Seq<char>>)>,
) -> bool {
    match entry_key(entry) {
        None => stored is None,
        Some(key) => exists|t: &str, x: Option<StoredChapter>| #[trigger]
            looks_up(lookup, t, x) && t@ == key && stored_view(x) == stored,
    }
}

/// Whether a title as a file name is what `safe_name` answers.
pub open spec fn title_answered<S: Fn(&str) -> String>(
    safe_name: S,
    title: Seq<char>,
    safe_title: Seq<char>,
) -> bool {
    exists|t: &str, x: String| #[trigger]
        makes_safe(safe_name, t, x) && t@ == title && x@ == safe_title
}

/// Whether what is known of a file is what `describe` answers.
pub open spec fn file_answered<M: Fn(&str) -> Option<FileMeta>>(
    describe: M,
    file_name: Seq<char>,
    existing: Option<FileMeta>,
) -> bool {
    exists|t: &str| #[trigger] describes(describe, t, existing) && t@ == file_name
}

/// Whether what is learned of the chapter `idx` is what the three functions answer; the last two
/// are asked of a chapter that is to be spoken.
pub open spec fn answered<
    L: Fn(&str) -> Option<StoredChapter>,
    S: Fn(&str) -> String,
    M: Fn(&str) -> Option<FileMeta>,
>(
    lookup: L,
    safe_name: S,
    describe: M,
    idx: nat,
    entry: ChapterEntry,
    ext: Seq<char>,
    answer: ChapterAnswer,
) -> bool {
    &&& stored_answered(lookup, entry, answer.stored)
    &&& spoken_chapter(entry, answer.stored) matches Some((title, _)) ==> title_answered(
        safe_name,
        title,
        answer.safe_title,
    ) && file_answered(
        describe,
        audio_file_name(idx, answer.safe_title, ext),
        answer.existing,
    )
}

/// Whether what is learned of each chapter is what the three functions answer.
pub open spec fn all_answered<
    L: Fn(&str) -> Option<StoredChapter>,
    S: Fn(&str) -> String,
    M: Fn(&str) -> Option<FileMeta>,
>(
    lookup: L,
    safe_name: S,
    describe: M,
    entries: Seq<ChapterEntry>,
    ext: Seq<char>,
    answers: Seq<ChapterAnswer>,
) -> bool {
    &&& answers.len() == entries.len()
    &&& forall|i: int|
        0 <= i < answers.len() ==> answered(
            lookup,
            safe_name,
            describe,
            (i + 1) as nat,
            entries[i],
            ext,
            #[trigger] answers[i],
        )
}

proof fn lemma_one_more_answer<
    L: Fn(&str) -> Option<StoredChapter>,
    S: Fn(&str) -> String,
    M: Fn(&str) -> Option<FileMeta>,
>(
    lookup: L,
    safe_name: S,
    describe: M,
    entries: Seq<ChapterEntry>,
    ext: Seq<char>,
    answers: Seq<ChapterAnswer>,
    answer: ChapterAnswer,
)
    requires
        answers.len() < entries.len(),
        all_answered(
            lookup,
            safe_name,
            describe,
            entries.take(answers.len() as int),
            ext,
            answers,
        ),
        answered(
            lookup,
            safe_name,
            describe,
            answers.len() + 1,
            entries[answers.len() as int],
            ext,
            answer,
        ),
    ensures
        all_answered(
            lookup,
            safe_name,
            describe,
            entries.take((answers.len() + 1) as int),
            ext,
            answers.push(answer),
        ),
        entries.take((answers.len() + 1) as int).drop_last() == entries.take(answers.len() as int),
        entries.take((answers.len() + 1) as int).last() == entries[answers.len() as int],
        answers.push(answer).drop_last() == answers,
        answers.push(answer).last() == answer,
{
    let more = answers.push(answer);
    let n = answers.len() as int;
    assert forall|i: int| 0 <= i < more.len() implies answered(
        lookup,
        safe_name,
        describe,
        (i + 1) as nat,
        entries.take(n + 1)[i],
        ext,
        #[trigger] more[i],
    ) by {
        if i < n {
            assert(more[i] == answers[i]);
            assert(entries.take(n + 1)[i] == entries.take(n)[i]);
        }
    }
}

proof fn lemma_plan_is_no_longer(
    entries: Seq<ChapterEntry>,
    answers: Seq<ChapterAnswer>,
    ext: Seq<char>,
)
    ensures
        planned(entries, answers, ext).jobs.len() + planned(entries, answers, ext).finished.len()
            <= entries.len(),
    decreases entries.len(),
{
    if entries.len() > 0 {
        lemma_plan_is_no_longer(entries.drop_last(), answers.drop_last(), ext);
    }
}

/// Plans the work on a book. `lookup` gives what is stored under a key, `safe_name` makes a title a
/// file name, and `describe` tells what is known of a file in the directory for the audio.
#[verifier::rlimit(50)]
pub fn plan_audiobook<
    L: Fn(&str) -> Option<StoredChapter>,
    S: Fn(&str) -> String,
    M: Fn(&str) -> Option<FileMeta>,
>(chapters: &[ChapterEntry], ext: &str, lookup: &L, safe_name: &S, describe: &M) -> (r: WorkPlan)
    requires
        forall|t: &str| call_requires(lookup, (t,)),
        forall|t: &str| call_requires(safe_name, (t,)),
        forall|t: &str| call_requires(describe, (t,)),
    ensures
        exists|answers: Seq<ChapterAnswer>| #[trigger]
            all_answered(*lookup, *safe_name, *describe, chapters@, ext@, answers) && plan_view(r)
                == planned(chapters@, answers, ext@),
        r.jobs@.len() + r.finished@.len() <= chapters@.len(),
{
    let mut plan = WorkPlan { jobs: Vec::new(), finished: Vec::new() };
    let ghost mut answers: Seq<ChapterAnswer> = Seq::empty();
    let total: usize = chapters.len();
    let mut index: usize = 0;
    assert(plan_view(plan) =~= planned(chapters@.take(0), answers, ext@));
    while index < total
        invariant
            total == chapters@.len(),
            index <= total,
            answers.len() == index,
            forall|t: &str| call_requires(lookup, (t,)),
            forall|t: &str| call_requires(safe_name, (t,)),
            forall|t: &str| call_requires(describe, (t,)),
            all_answered(
                *lookup,
                *safe_name,
                *describe,
                chapters@.take(index as int),
                ext@,
                answers,
            ),
            plan_view(plan) == planned(chapters@.take(index as int), answers, ext@),
        decreases total - index,
    {
        let entry: &ChapterEntry = &chapters[index];
        let stored: Option<StoredChapter> = match chapter_key(entry) {
            Some(key) => {
                let asked: &str = key.as_str();
                let found: Option<StoredChapter> = lookup(asked);
                assert(looks_up(*lookup, asked, found));
                found
            },
            None => None,
        };
        assert(stored_answered(*lookup, *entry, stored_view(stored)));
        let ghost mut answer = ChapterAnswer {
            stored: stored_view(stored),
            safe_title: Seq::empty(),
            existing: None,
        };
        let chapter: Option<ChapterText> = chapter_text(entry, &stored);
        if let Some(chapter) = chapter {
            let title: &str = chapter.title.as_str();
            let safe_title: String = safe_name(title);
            assert(makes_safe(*safe_name, title, safe_title));
            let file_name: String = chapter_file_name(index + 1, safe_title.as_str(), ext);
            let asked: &str = file_name.as_str();
            let existing: Option<FileMeta> = describe(asked);
            assert(describes(*describe, asked, existing));
            proof {
                answer = ChapterAnswer {
                    stored: stored_view(stored),
                    safe_title: safe_title@,
                    existing,
                };
                assert(title_answered(*safe_name, chapter.title@, safe_title@));
                assert(file_answered(*describe, file_name@, existing));
            }
            add_chapter(&mut plan, index + 1, chapter, file_name, existing);
        }
        proof {
            lemma_one_more_answer(
                *lookup,
                *safe_name,
                *describe,
                chapters@,
                ext@,
                answers,
                answer,
            );
            answers = answers.push(answer);
        }
        index += 1;
    }
    assert(chapters@.take(total as int) == chapters@);
    proof {
        lemma_plan_is_no_longer(chapters@, answers, ext@);
        assert(plan_view(plan).jobs.len() == plan.jobs@.len());
        assert(plan_view(plan).finished.len() == plan.finished@.len());
    }
    plan
}

/// Chapters at different places of a book have different audio files, whatever their titles.
pub proof fn law_file_names_differ(
    a: nat,
    b: nat,
    title_a: Seq<char>,
    title_b: Seq<char>,
    ext_a: Seq<char>,
    ext_b: Seq<char>,
)
    requires
        audio_file_name(a, title_a, ext_a) == audio_file_name(b, title_b, ext_b),
    ensures
        a == b,
{
    let digits_a = zero_padded(decimal(a), NUMBER_WIDTH as nat);
    let digits_b = zero_padded(decimal(b), NUMBER_WIDTH as nat);
    let name = audio_file_name(a, title_a, ext_a);
    lemma_zero_padded_reads_back(a, NUMBER_WIDTH as nat);
    lemma_zero_padded_reads_back(b, NUMBER_WIDTH as nat);
    reveal_strlit("-");
    let p = digits_a.len() as int;
    let q = digits_b.len() as int;
    assert(name[p] == '-');
    assert(name[q] == '-');
    if p < q {
        assert(name[p] == digits_b[p]);
        assert(is_digit(digits_b[p]));
    }
    if q < p {
        assert(name[q] == digits_a[q]);
        assert(is_digit(digits_a[q]));
    }
    assert forall|i: int| 0 <= i < p implies digits_a[i] == digits_b[i] by {
        assert(name[i] == digits_a[i]);
        assert(name[i] == digits_b[i]);
    }
    assert(digits_a == digits_b);
}

/// A file that is being written is not taken for an audio file.
pub proof fn law_partial_file_is_no_audio_file(
    idx: nat,
    safe_title: Seq<char>,
    ext: Seq<char>,
    file_name: Seq<char>,
)
    requires
        ext == "mp3"@ || ext == "wav"@,
    ensures
        partial_name(file_name) != audio_file_name(idx, safe_title, ext),
{
    reveal_strlit("mp3");
    reveal_strlit("wav");
    reveal_strlit(".partial");
    let name = audio_file_name(idx, safe_title, ext);
    assert(partial_name(file_name).last() == 'l');
    assert(name.last() == ext.last());
    assert("mp3"@.last() == '3');
    assert("wav"@.last() == 'v');
}

/// How many of the chapters are to be spoken and have audio that can stay (`there`), or have none.
pub open spec fn chapter_count(
    entries: Seq<ChapterEntry>,
    answers: Seq<ChapterAnswer>,
    there: bool,
) -> nat
    decreases entries.len(),
{
    if entries.len() == 0 {
        0
    } else {
        let before = chapter_count(entries.drop_last(), answers.drop_last(), there);
        if spoken_chapter(entries.last(), answers.last().stored) is Some && reusable(
            answers.last().existing,
        ) == there {
            before + 1
        } else {
            before
        }
    }
}

/// Whether a job is the one of its chapter: the title and the text to be spoken of it, and the
/// names that its place in the book and its title give.
pub open spec fn is_job_of(
    job: JobView,
    entries: Seq<ChapterEntry>,
    answers: Seq<ChapterAnswer>,
    ext: Seq<char>,
) -> bool {
    &&& 1 <= job.idx <= entries.len()
    &&& spoken_chapter(entries[job.idx - 1], answers[job.idx - 1].stored) == Some(
        (job.title, job.text),
    )
    &&& job.file_name == audio_file_name(job.idx, answers[job.idx - 1].safe_title, ext)
    &&& job.tmp_name == partial_name(job.file_name)
    &&& !reusable(answers[job.idx - 1].existing)
}

/// Each chapter that is to be spoken is planned once: as a job where it has no audio, as finished
/// where it has. The jobs come in the order of the chapters, and each holds what belongs to its
/// chapter.
#[verifier::rlimit(50)]
pub proof fn law_chapters_are_planned_once(
    entries: Seq<ChapterEntry>,
    answers: Seq<ChapterAnswer>,
    ext: Seq<char>,
)
    requires
        answers.len() == entries.len(),
    ensures
        planned(entries, answers, ext).jobs.len() == chapter_count(entries, answers, false),
        planned(entries, answers, ext).finished.len() == chapter_count(entries, answers, true),
        forall|j: int|
            0 <= j < planned(entries, answers, ext).jobs.len() ==> is_job_of(
                #[trigger] planned(entries, answers, ext).jobs[j],
                entries,
                answers,
                ext,
            ),
        forall|j: int, k: int|
            0 <= j < k < planned(entries, answers, ext).jobs.len() ==> (#[trigger] planned(
                entries,
                answers,
                ext,
            ).jobs[j]).idx < (#[trigger] planned(entries, answers, ext).jobs[k]).idx,
    decreases entries.len(),
{
    if entries.len() > 0 {
        let n = entries.len() as int;
        let fewer = entries.drop_last();
        let fewer_answers = answers.drop_last();
        let before = planned(fewer, fewer_answers, ext);
        let now = planned(entries, answers, ext);
        law_chapters_are_planned_once(fewer, fewer_answers, ext);
        assert forall|j: int| 0 <= j < now.jobs.len() implies is_job_of(
            #[trigger] now.jobs[j],
            entries,
            answers,
            ext,
        ) by {
            if j < before.jobs.len() {
                assert(now.jobs[j] == before.jobs[j]);
                let i = before.jobs[j].idx - 1;
                assert(fewer[i] == entries[i]);
                assert(fewer_answers[i] == answers[i]);
            }
        }
        assert forall|j: int, k: int| 0 <= j < k < now.jobs.len() implies (
        #[trigger] now.jobs[j]).idx < (#[trigger] now.jobs[k]).idx by {
            assert(now.jobs[j] == before.jobs[j]);
            assert(is_job_of(before.jobs[j], fewer, fewer_answers, ext));
            if k < before.jobs.len() {
                assert(now.jobs[k] == before.jobs[k]);
            }
        }
    }
}

/// No two jobs write to the same file, and none writes to a file that another has while it is
/// written.
#[verifier::rlimit(50)]
pub proof fn law_jobs_do_not_meet(
    entries: Seq<ChapterEntry>,
    answers: Seq<ChapterAnswer>,
    ext: Seq<char>,
    j: int,
    k: int,
)
    requires
        answers.len() == entries.len(),
        ext == "mp3"@ || ext == "wav"@,
        0 <= j < planned(entries, answers, ext).jobs.len(),
        0 <= k < planned(entries, answers, ext).jobs.len(),
    ensures
        ({
            let jobs = planned(entries, answers, ext).jobs;
            &&& j != k ==> jobs[j].file_name != jobs[k].file_name
            &&& j != k ==> jobs[j].tmp_name != jobs[k].tmp_name
            &&& jobs[j].tmp_name != jobs[k].file_name
        }),
{
    law_chapters_are_planned_once(entries, answers, ext);
    let jobs = planned(entries, answers, ext).jobs;
    let a = jobs[j];
    let b = jobs[k];
    assert(is_job_of(a, entries, answers, ext));
    assert(is_job_of(b, entries, answers, ext));
    let safe_a = answers[a.idx - 1].safe_title;
    let safe_b = answers[b.idx - 1].safe_title;
    if a.file_name == b.file_name {
        law_file_names_differ(a.idx, b.idx, safe_a, safe_b, ext, ext);
    }
    if a.tmp_name == b.tmp_name {
        let n = a.file_name.len() as int;
        assert(a.tmp_name.len() == b.tmp_name.len());
        assert(a.tmp_name.take(n) == a.file_name);
        assert(b.tmp_name.take(n) == b.file_name);
    }
    law_partial_file_is_no_audio_file(b.idx, safe_b, ext, a.file_name);
}

/// A chapter is passed over only for the reasons there are: it is not stored, or its content is
/// missing or blank, or nothing but white space is spoken of it. Any other is spoken, whatever its
/// length, under the stored title, or that of its entry where the stored one is blank.
pub proof fn law_chapters_are_passed_over_for_a_reason(
    entry: ChapterEntry,
    stored_title: Seq<char>,
    content: Seq<char>,
)
    ensures
        spoken_chapter(entry, None) is None,
        spoken_chapter(entry, Some((stored_title, None))) is None,
        ({
            let title = if trim(stored_title).len() > 0 {
                stored_title
            } else {
                match entry.title {
                    Some(FieldValue::Text(s)) => s@,
                    _ => "章节"@,
                }
            };
            let text = sanitized(title, content);
            &&& trim(content).len() > 0 && trim(text).len() > 0 ==> spoken_chapter(
                entry,
                Some((stored_title, Some(content))),
            ) == Some((title, text))
            &&& trim(content).len() == 0 || trim(text).len() == 0 ==> spoken_chapter(
                entry,
                Some((stored_title, Some(content))),
            ) is None
        }),
{
}

/// An entry goes by the string or by the number that it has as its identifier, the number written in
/// decimal; without one of the two it goes by nothing.
pub proof fn law_entries_go_by_their_identifiers(entry: ChapterEntry)
    ensures
        entry.id matches Some(FieldValue::Text(s)) ==> entry_key(entry) == Some(s@),
        entry.id matches Some(FieldValue::Number(n)) ==> entry_key(entry) == Some(decimal(n as nat)),
        entry.id is None || (entry.id matches Some(FieldValue::Other)) ==> entry_key(entry) is None,
{
}

/// A file is named by the number of its chapter, with zeros in front up to four digits, by its title
/// and by the audio format; while it is written, `.partial` stands behind. A book without a name
/// goes by its identifier.
pub proof fn law_names(
    idx: nat,
    safe_title: Seq<char>,
    ext: Seq<char>,
    name: Seq<char>,
    id: Seq<char>,
)
    ensures
        audio_file_name(idx, safe_title, ext) == zero_padded(decimal(idx), 4) + "-"@ + safe_title
            + "."@ + ext,
        partial_name(name) == name + ".partial"@,
        trim(name).len() > 0 ==> book_title(name, id) == name,
        trim(name).len() == 0 ==> book_title(name, id) == id,
{
}

/// Audio that is there already stays exactly where it is a file that is not empty.
pub proof fn law_audio_stays_where_it_is_a_file(is_file: bool, len: u64)
    ensures
        reusable(Some(FileMeta { is_file, len })) <==> is_file && len > 0,
        !reusable(None),
{
}

#[verifier::rlimit(50)]
proof fn lemma_plan_of_first(
    entries: Seq<ChapterEntry>,
    answers: Seq<ChapterAnswer>,
    ext: Seq<char>,
    k: nat,
)
    requires
        answers.len() == entries.len(),
        k <= entries.len(),
    ensures
        planned(entries.take(k as int), answers.take(k as int), ext).jobs == Seq::new(k, |i: int| i).filter(
            |i: int|
                spoken_chapter(entries[i], answers[i].stored) is Some && !(answers[i].existing matches Some(
                    m,
                ) && m.is_file && m.len > 0),
        ).map_values(
            |i: int|
                JobView {
                    idx: (i + 1) as nat,
                    title: spoken_chapter(entries[i], answers[i].stored).unwrap().0,
                    text: spoken_chapter(entries[i], answers[i].stored).unwrap().1,
                    file_name: audio_file_name((i + 1) as nat, answers[i].safe_title, ext),
                    tmp_name: audio_file_name((i + 1) as nat, answers[i].safe_title, ext) + ".partial"@,
                },
        ),
        planned(entries.take(k as int), answers.take(k as int), ext).finished == Seq::new(k, |i: int| i).filter(
            |i: int|
                spoken_chapter(entries[i], answers[i].stored) is Some && (answers[i].existing matches Some(
                    m,
                ) && m.is_file && m.len > 0),
        ).map_values(|i: int| audio_file_name((i + 1) as nat, answers[i].safe_title, ext) + ".partial"@),
    decreases k,
{
    let open = |i: int|
        spoken_chapter(entries[i], answers[i].stored) is Some && !(answers[i].existing matches Some(
            m,
        ) && m.is_file && m.len > 0);
    let done = |i: int|
        spoken_chapter(entries[i], answers[i].stored) is Some && (answers[i].existing matches Some(
            m,
        ) && m.is_file && m.len > 0);
    let job = |i: int|
        JobView {
            idx: (i + 1) as nat,
            title: spoken_chapter(entries[i], answers[i].stored).unwrap().0,
            text: spoken_chapter(entries[i], answers[i].stored).unwrap().1,
            file_name: audio_file_name((i + 1) as nat, answers[i].safe_title, ext),
            tmp_name: audio_file_name((i + 1) as nat, answers[i].safe_title, ext) + ".partial"@,
        };
    let name = |i: int| audio_file_name((i + 1) as nat, answers[i].safe_title, ext) + ".partial"@;
    let first = Seq::new(k, |i: int| i);
    reveal(Seq::filter);
    if k > 0 {
        let n = (k - 1) as nat;
        let fewer = Seq::new(n, |i: int| i);
        lemma_plan_of_first(entries, answers, ext, n);
        assert(entries.take(k as int).drop_last() == entries.take(n as int));
        assert(answers.take(k as int).drop_last() == answers.take(n as int));
        assert(entries.take(k as int).last() == entries[n as int]);
        assert(answers.take(k as int).last() == answers[n as int]);
        assert(first.drop_last() == fewer);
        assert(first.last() == n);
        let open_before = fewer.filter(open);
        let done_before = fewer.filter(done);
        assert(open_before.push(n as int).map_values(job) == open_before.map_values(job).push(
            job(n as int),
        ));
        assert(done_before.push(n as int).map_values(name) == done_before.map_values(name).push(
            name(n as int),
        ));
    } else {
        assert(first.filter(open).map_values(job) == Seq::<JobView>::empty());
        assert(first.filter(done).map_values(name) == Seq::<Seq<char>>::empty());
    }
}

/// The plan is made of all chapters of which something is to be spoken, in their order and each with
/// its own number, title, text and file names: those without audio are jobs, those with audio are
/// finished. None is left out, and none comes twice.
pub proof fn law_plan_leaves_no_chapter_out(
    entries: Seq<ChapterEntry>,
    answers: Seq<ChapterAnswer>,
    ext: Seq<char>,
)
    requires
        answers.len() == entries.len(),
    ensures
        planned(entries, answers, ext).jobs == Seq::new(entries.len(), |i: int| i).filter(
            |i: int|
                spoken_chapter(entries[i], answers[i].stored) is Some && !(answers[i].existing matches Some(
                    m,
                ) && m.is_file && m.len > 0),
        ).map_values(
            |i: int|
                JobView {
                    idx: (i + 1) as nat,
                    title: spoken_chapter(entries[i], answers[i].stored).unwrap().0,
                    text: spoken_chapter(entries[i], answers[i].stored).unwrap().1,
                    file_name: audio_file_name((i + 1) as nat, answers[i].safe_title, ext),
                    tmp_name: audio_file_name((i + 1) as nat, answers[i].safe_title, ext) + ".partial"@,
                },
        ),
        planned(entries, answers, ext).finished == Seq::new(entries.len(), |i: int| i).filter(
            |i: int|
                spoken_chapter(entries[i], answers[i].stored) is Some && (answers[i].existing matches Some(
                    m,
                ) && m.is_file && m.len > 0),
        ).map_values(|i: int| audio_file_name((i + 1) as nat, answers[i].safe_title, ext) + ".partial"@),
{
    lemma_plan_of_first(entries, answers, ext, entries.len());
    assert(entries.take(entries.len() as int) == entries);
    assert(answers.take(answers.len() as int) == answers);
}

/// What a plan rests on is what was asked for, chapter by chapter: what is stored under the key of
/// its entry; its title as a file name; and what is known of the file of that name.
#[verifier::rlimit(50)]
pub proof fn law_plan_rests_on_what_was_asked<
    L: Fn(&str) -> Option<StoredChapter>,
    S: Fn(&str) -> String,
    M: Fn(&str) -> Option<FileMeta>,
>(
    lookup: L,
    safe_name: S,
    describe: M,
    entries: Seq<ChapterEntry>,
    ext: Seq<char>,
    answers: Seq<ChapterAnswer>,
    i: int,
)
    requires
        all_answered(lookup, safe_name, describe, entries, ext, answers),
        0 <= i < entries.len(),
    ensures
        answers.len() == entries.len(),
        match entry_key(entries[i]) {
            None => answers[i].stored is None,
            Some(key) => exists|t: &str, x: Option<StoredChapter>| #[trigger]
                call_ensures(lookup, (t,), x) && t@ == key && (match x {
                    None => answers[i].stored is None,
                    Some(c) => answers[i].stored == Some(
                        (
                            c.title@,
                            match c.content {
                                Some(content) => Some(content@),
                                None => None,
                            },
                        ),
                    ),
                }),
        },
        spoken_chapter(entries[i], answers[i].stored) matches Some((title, _)) ==> {
            &&& exists|t: &str, x: String| #[trigger]
                call_ensures(safe_name, (t,), x) && t@ == title && x@ == answers[i].safe_title
            &&& exists|t: &str| #[trigger]
                call_ensures(describe, (t,), answers[i].existing) && t@ == audio_file_name(
                    (i + 1) as nat,
                    answers[i].safe_title,
                    ext,
                )
        },
{
    let a = answers[i];
    assert(answered(lookup, safe_name, describe, (i + 1) as nat, entries[i], ext, a));
    if let Some(key) = entry_key(entries[i]) {
        let (t, x) = choose|t: &str, x: Option<StoredChapter>| #[trigger]
            looks_up(lookup, t, x) && t@ == key && stored_view(x) == a.stored;
        assert(call_ensures(lookup, (t,), x));
    }
    if let Some((title, text)) = spoken_chapter(entries[i], a.stored) {
        let (t, x) = choose|t: &str, x: String| #[trigger]
            makes_safe(safe_name, t, x) && t@ == title && x@ == a.safe_title;
        assert(call_ensures(safe_name, (t,), x));
        let f = choose|f: &str| #[trigger]
            describes(describe, f, a.existing) && f@ == audio_file_name(
                (i + 1) as nat,
                a.safe_title,
                ext,
            );
        assert(call_ensures(describe, (f,), a.existing));
    }
}

/// Chapters and plans are taken with all that they hold.
pub proof fn law_plans_are_taken_whole(
    stored: StoredChapter,
    chapter: ChapterText,
    plan: WorkPlan,
    i: int,
)
    ensures
        stored_view(None) is None,
        stored_view(Some(stored)) matches Some(v) && v.0 == stored.title@ && (v.1 is Some
            <==> stored.content is Some) && (stored.content matches Some(c) ==> v.1 == Some(c@)),
        chapter_view(None) is None,
        chapter_view(Some(chapter)) == Some((chapter.title@, chapter.text@)),
        plan_view(plan).jobs.len() == plan.jobs@.len(),
        plan_view(plan).finished.len() == plan.finished@.len(),
        0 <= i < plan.finished@.len() ==> plan_view(plan).finished[i] == plan.finished@[i]@,
        0 <= i < plan.jobs@.len() ==> {
            let job = plan.jobs@[i];
            let view = plan_view(plan).jobs[i];
            &&& view.idx == job.idx
            &&& view.title == job.title@
            &&& view.text == job.text@
            &&& view.file_name == job.file_name@
            &&& view.tmp_name == job.tmp_name@
        },
{
}

} // verus!
