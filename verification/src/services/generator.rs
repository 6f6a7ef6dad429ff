//! Question pools: the book/chapter of a reference, the books of a pool,
//! chapter filters, CSV parsing and validation, and question-set generation.
use vstd::prelude::*;
use std::borrow::Cow;
use crate::services::draws::{Draws, seeded_below, seeded_choice, seeded_shuffle};
use crate::seq_facts::{
    lemma_filter_len_update, lemma_filter_len_perm, lemma_update_multiset, lemma_perm_contains,
    lemma_perm_no_duplicates, neg, both, lemma_filter_split, lemma_filter_filter, lemma_filter_none,
    lemma_filter_no_duplicates, lemma_len_by_inclusion,
};
use crate::text::{
    chars_of, string_of, trim_bounds, parse_i32_chars, parse_i32, trim, i32_text, i32_to_text,
    text_lt, text_less, lemma_text_lt_irreflexive, lemma_text_lt_transitive, lemma_text_lt_total,
    strip_bom, bom_end, texts, ascii_lower_text, push_text, push_chars, join, nat_text, u128_text, trim_text, eq_ignore_case, text_eq_ignore_case,
};

verus! {

/// One question of a pool, as a row of the pool's CSV text.
#[derive(Debug, PartialEq)]
pub struct QuestionRecord {
    pub question: String,
    pub qtype: String,
    pub reference: String,
    pub answer: String,
}

/// The text of the four fields of a question.
pub ghost struct QuestionText {
    pub question: Seq<char>,
    pub qtype: Seq<char>,
    pub reference: Seq<char>,
    pub answer: Seq<char>,
}

impl View for QuestionRecord {
    type V = QuestionText;

    open spec fn view(&self) -> QuestionText {
        QuestionText {
            question: self.question@,
            qtype: self.qtype@,
            reference: self.reference@,
            answer: self.answer@,
        }
    }
}

impl Clone for QuestionRecord {
    fn clone(&self) -> (r: Self)
        ensures
            r == *self,
    {
        QuestionRecord {
            question: self.question.clone(),
            qtype: self.qtype.clone(),
            reference: self.reference.clone(),
            answer: self.answer.clone(),
        }
    }
}

/// What a caller asks of `generate_questions`.
#[derive(Debug)]
pub struct GenerateRequest {
    pub question_type: String,
    pub count: usize,
    pub situation: Option<bool>,
    pub seed: Option<u64>,
}

/// A book and an inclusive chapter range (in either order) to keep.
#[derive(Debug)]
pub struct BookFilter {
    pub name: String,
    pub start_chapter: i32,
    pub end_chapter: i32,
}

/// A book of a pool with its lowest and highest chapter.
#[derive(Debug)]
pub struct BookMeta {
    pub name: String,
    pub min_chapter: i32,
    pub max_chapter: i32,
}

/// The position of the last space of `s`.
pub open spec fn last_space(s: Seq<char>) -> Option<int> {
    if exists|i: int| 0 <= i < s.len() && s[i] == ' ' {
        Some(
            choose|i: int|
                0 <= i < s.len() && s[i] == ' ' && forall|j: int| i < j < s.len() ==> s[j] != ' ',
        )
    } else {
        None
    }
}

/// `s` up to its first colon (all of `s` when it has none).
pub open spec fn before_colon(s: Seq<char>) -> Seq<char> {
    if exists|i: int| 0 <= i < s.len() && s[i] == ':' {
        s.take(
            choose|i: int|
                0 <= i < s.len() && s[i] == ':' && forall|j: int| 0 <= j < i ==> s[j] != ':',
        )
    } else {
        s
    }
}

/// The book and chapter of a reference such as `"1 John 3:16"`: the book is
/// the trimmed text before the last space, the chapter the `i32` between that
/// space and the first colon after it.
pub open spec fn book_and_chapter(r: Seq<char>) -> Option<(Seq<char>, i32)> {
    match last_space(r) {
        None => None,
        Some(p) => match parse_i32(trim(before_colon(r.subrange(p + 1, r.len() as int)))) {
            Some(ch) => Some((trim(r.take(p)), ch)),
            None => None,
        },
    }
}

/// The key `"{book} {chapter}"` that groups the questions of one chapter.
pub open spec fn chapter_key_of(r: Seq<char>) -> Option<Seq<char>> {
    match book_and_chapter(r) {
        Some((b, ch)) => Some(b + seq![' '] + i32_text(ch)),
        None => None,
    }
}

fn parse_book_and_chapter(reference: &str) -> (r: Option<(String, i32)>)
    ensures
        r matches Some((b, ch)) ==> book_and_chapter(reference@) == Some((b@, ch)),
        r is None ==> book_and_chapter(reference@) is None,
{
    let cs = chars_of(reference);
    let n = cs.len();
    let mut p: usize = n;
    while p > 0 && cs[p - 1] != ' '
        invariant
            p <= n,
            n == cs@.len(),
            forall|j: int| p <= j < n ==> cs@[j] != ' ',
        decreases p,
    {
        p = p - 1;
    }
    if p == 0 {
        assert(!exists|i: int| 0 <= i < cs@.len() && cs@[i] == ' ');
        return None;
    }
    let sp = p - 1;
    proof {
        assert(cs@[sp as int] == ' ');
        let w = choose|i: int|
            0 <= i < cs@.len() && cs@[i] == ' ' && forall|j: int| i < j < cs@.len() ==> cs@[j] != ' ';
        assert(w == sp);
        assert(last_space(reference@) == Some(sp as int));
    }
    let tail = &cs[sp + 1..n];
    let m = tail.len();
    let mut c: usize = 0;
    while c < m && tail[c] != ':'
        invariant
            c <= m,
            m == tail@.len(),
            forall|j: int| 0 <= j < c ==> tail@[j] != ':',
        decreases m - c,
    {
        c = c + 1;
    }
    proof {
        if c < m {
            let w = choose|i: int|
                0 <= i < tail@.len() && tail@[i] == ':' && forall|j: int| 0 <= j < i ==> tail@[j] != ':';
            assert(w == c);
            assert(before_colon(tail@) == tail@.take(c as int));
        } else {
            assert(before_colon(tail@) == tail@);
            assert(tail@.take(c as int) =~= tail@);
        }
    }
    let chapter_part = &tail[0..c];
    let (a, b) = trim_bounds(chapter_part);
    let chapter = parse_i32_chars(&chapter_part[a..b]);
    match chapter {
        None => None,
        Some(ch) => {
            let head = &cs[0..sp];
            let (x, y) = trim_bounds(head);
            assert(head@ =~= reference@.take(sp as int));
            Some((string_of(&head[x..y]), ch))
        },
    }
}


/// `"{book} {chapter}"` for a reference whose book and chapter parse.
fn chapter_key(reference: &str) -> (r: Option<String>)
    ensures
        r matches Some(k) ==> chapter_key_of(reference@) == Some(k@),
        r is None ==> chapter_key_of(reference@) is None,
{
    match parse_book_and_chapter(reference) {
        None => None,
        Some((book, chapter)) => {
            let mut cs = chars_of(book.as_str());
            cs.push(' ');
            let digits = i32_to_text(chapter);
            let ghost head = cs@;
            let mut i: usize = 0;
            while i < digits.len()
                invariant
                    i <= digits@.len(),
                    cs@ == head + digits@.take(i as int),
                decreases digits@.len() - i,
            {
                cs.push(digits[i]);
                i = i + 1;
                proof {
                    assert(cs@ =~= head + digits@.take(i as int));
                }
            }
            assert(digits@.take(digits@.len() as int) =~= digits@);
            assert(head =~= book@ + seq![' ']);
            Some(string_of(cs.as_slice()))
        },
    }
}

/// The lowest and highest chapter of book `b` among the parseable references
/// of `pool`, or `None` when no reference names `b`.
pub open spec fn book_range(pool: Seq<QuestionRecord>, b: Seq<char>) -> Option<(i32, i32)>
    decreases pool.len(),
{
    if pool.len() == 0 {
        None
    } else {
        let prev = book_range(pool.drop_last(), b);
        match book_and_chapter(pool.last().reference@) {
            Some((bk, ch)) => if bk == b {
                match prev {
                    None => Some((ch, ch)),
                    Some((lo, hi)) => Some(
                        (if ch < lo { ch } else { lo }, if ch > hi { ch } else { hi }),
                    ),
                }
            } else {
                prev
            },
            None => prev,
        }
    }
}

/// Book names in strictly increasing `String` order.
pub open spec fn names_ascending(books: Seq<BookMeta>) -> bool {
    forall|i: int, j: int| 0 <= i < j < books.len() ==> text_lt(books[i].name@, books[j].name@)
}

/// The books of `pool` are exactly those that `list_books` reports.
pub open spec fn lists_books_of(pool: Seq<QuestionRecord>, books: Seq<BookMeta>) -> bool {
    &&& names_ascending(books)
    &&& forall|i: int|
        0 <= i < books.len() ==> book_range(pool, #[trigger] books[i].name@) == Some(
            (books[i].min_chapter, books[i].max_chapter),
        )
    &&& forall|b: Seq<char>|
        #[trigger] book_range(pool, b) is Some ==> exists|i: int|
            0 <= i < books.len() && books[i].name@ == b
}

/// Every book named by a parseable reference of `pool`, with its lowest and
/// highest chapter, ordered by name.
pub fn list_books(pool: &[QuestionRecord]) -> (books: Vec<BookMeta>)
    ensures
        lists_books_of(pool@, books@),
{
    let mut books: Vec<BookMeta> = Vec::new();
    let n = pool.len();
    let mut k: usize = 0;
    while k < n
        invariant
            k <= n,
            n == pool@.len(),
            lists_books_of(pool@.take(k as int), books@),
        decreases n - k,
    {
        let ghost before = books@;
        let ghost prefix = pool@.take(k as int);
        let ghost next = pool@.take(k + 1);
        proof {
            assert(next.drop_last() =~= prefix);
            assert(next.last() == pool@[k as int]);
        }
        match parse_book_and_chapter(&pool[k].reference) {
            None => {
                proof {
                    assert forall|b: Seq<char>| book_range(next, b) == book_range(prefix, b) by {}
                }
            },
            Some((book, ch)) => {
                let mut j: usize = 0;
                while j < books.len() && text_less(books[j].name.as_str(), book.as_str())
                    invariant
                        j <= books@.len(),
                        books@ == before,
                        forall|i: int| 0 <= i < j ==> text_lt(#[trigger] books@[i].name@, book@),
                    decreases books@.len() - j,
                {
                    j = j + 1;
                }
                if j < books.len() && books[j].name == book {
                    let lo = if ch < books[j].min_chapter {
                        ch
                    } else {
                        books[j].min_chapter
                    };
                    let hi = if ch > books[j].max_chapter {
                        ch
                    } else {
                        books[j].max_chapter
                    };
                    books.set(j, BookMeta { name: book, min_chapter: lo, max_chapter: hi });
                    proof {
                        assert forall|b: Seq<char>| b != books@[j as int].name@ implies book_range(next, b)
                            == book_range(prefix, b) by {}
                        assert forall|i: int| 0 <= i < books@.len() implies book_range(
                            next,
                            #[trigger] books@[i].name@,
                        ) == Some((books@[i].min_chapter, books@[i].max_chapter)) by {
                            if i != j {
                                assert(text_lt(before[i].name@, before[j as int].name@) || text_lt(
                                    before[j as int].name@,
                                    before[i].name@,
                                ));
                                if before[i].name@ == before[j as int].name@ {
                                    lemma_text_lt_irreflexive(before[i].name@);
                                }
                            }
                        }
                        assert forall|b: Seq<char>| #[trigger] book_range(next, b) is Some implies exists|i: int|
                            0 <= i < books@.len() && books@[i].name@ == b by {
                            if b != book@ {
                                assert(book_range(prefix, b) is Some);
                                let i = choose|i: int| 0 <= i < before.len() && before[i].name@ == b;
                                assert(books@[i].name@ == b);
                            } else {
                                assert(books@[j as int].name@ == b);
                            }
                        }
                    }
                } else {
                    proof {
                        assert forall|i: int| 0 <= i < before.len() implies before[i].name@ != book@ by {
                            if i < j {
                                lemma_text_lt_irreflexive(book@);
                            } else {
                                assert(before[j as int].name@ != book@);
                                lemma_text_lt_total(before[j as int].name@, book@);
                                if i > j {
                                    lemma_text_lt_transitive(book@, before[j as int].name@, before[i].name@);
                                    lemma_text_lt_irreflexive(book@);
                                }
                            }
                        }
                        assert(book_range(prefix, book@) is None);
                        if j < before.len() {
                            lemma_text_lt_total(before[j as int].name@, book@);
                        }
                        assert forall|i: int| j <= i < before.len() implies text_lt(
                            book@,
                            #[trigger] before[i].name@,
                        ) by {
                            if i > j {
                                lemma_text_lt_transitive(book@, before[j as int].name@, before[i].name@);
                            }
                        }
                    }
                    books.insert(j, BookMeta { name: book, min_chapter: ch, max_chapter: ch });
                    proof {
                        assert forall|i: int| 0 <= i < j implies books@[i] == before[i] by {}
                        assert forall|i: int| j < i < books@.len() implies books@[i] == before[i - 1] by {}
                        assert forall|b: Seq<char>| b != book@ implies book_range(next, b) == book_range(
                            prefix,
                            b,
                        ) by {}
                        assert forall|x: int, y: int| 0 <= x < y < books@.len() implies text_lt(
                            books@[x].name@,
                            books@[y].name@,
                        ) by {
                            if x < j && y > j {
                                lemma_text_lt_transitive(books@[x].name@, book@, books@[y].name@);
                            } else if x > j {
                                assert(text_lt(before[x - 1].name@, before[y - 1].name@));
                            }
                        }
                        assert forall|i: int| 0 <= i < books@.len() implies book_range(
                            next,
                            #[trigger] books@[i].name@,
                        ) == Some((books@[i].min_chapter, books@[i].max_chapter)) by {
                            if i < j {
                                assert(books@[i].name@ != book@);
                            } else if i > j {
                                assert(books@[i].name@ == before[i - 1].name@);
                            }
                        }
                        assert forall|b: Seq<char>| #[trigger] book_range(next, b) is Some implies exists|i: int|
                            0 <= i < books@.len() && books@[i].name@ == b by {
                            if b != book@ {
                                assert(book_range(prefix, b) is Some);
                                let i = choose|i: int| 0 <= i < before.len() && before[i].name@ == b;
                                if i < j {
                                    assert(books@[i].name@ == b);
                                } else {
                                    assert(books@[i + 1].name@ == b);
                                }
                            } else {
                                assert(books@[j as int].name@ == b);
                            }
                        }
                    }
                }
            },
        }
        k = k + 1;
    }
    assert(pool@.take(n as int) =~= pool@);
    books
}


/// The chapter range `(low, high)` that the last filter naming book `b`
/// selects, its bounds put in order.
pub open spec fn filter_range(filters: Seq<BookFilter>, b: Seq<char>) -> Option<(i32, i32)>
    decreases filters.len(),
{
    if filters.len() == 0 {
        None
    } else {
        let f = filters.last();
        if f.name@ == b {
            Some(
                (
                    if f.start_chapter <= f.end_chapter { f.start_chapter } else { f.end_chapter },
                    if f.start_chapter <= f.end_chapter { f.end_chapter } else { f.start_chapter },
                ),
            )
        } else {
            filter_range(filters.drop_last(), b)
        }
    }
}

/// A question passes the filters when its reference parses and its chapter
/// lies in the range selected for its book.
pub open spec fn selected_by(filters: Seq<BookFilter>, q: QuestionRecord) -> bool {
    match book_and_chapter(q.reference@) {
        Some((b, ch)) => match filter_range(filters, b) {
            Some((lo, hi)) => lo <= ch <= hi,
            None => false,
        },
        None => false,
    }
}

/// What `filter_by_books` keeps of `pool`: everything when there is no
/// filter, else the questions that pass the filters, in pool order.
pub open spec fn books_filtered(pool: Seq<QuestionRecord>, filters: Seq<BookFilter>) -> Seq<
    QuestionRecord,
> {
    if filters.len() == 0 {
        pool
    } else {
        pool.filter(|q: QuestionRecord| selected_by(filters, q))
    }
}

fn selects(filters: &[BookFilter], q: &QuestionRecord) -> (r: bool)
    ensures
        r == selected_by(filters@, *q),
{
    match parse_book_and_chapter(q.reference.as_str()) {
        None => false,
        Some((book, ch)) => {
            let mut i = filters.len();
            assert(filters@.take(i as int) =~= filters@);
            while i > 0 && filters[i - 1].name != book
                invariant
                    i <= filters@.len(),
                    filter_range(filters@, book@) == filter_range(filters@.take(i as int), book@),
                decreases i,
            {
                proof {
                    let t = filters@.take(i as int);
                    assert(t.drop_last() =~= filters@.take(i - 1));
                }
                i = i - 1;
            }
            if i == 0 {
                false
            } else {
                proof {
                    let t = filters@.take(i as int);
                    assert(t.last() == filters@[i - 1]);
                }
                let f = &filters[i - 1];
                let lo = if f.start_chapter <= f.end_chapter {
                    f.start_chapter
                } else {
                    f.end_chapter
                };
                let hi = if f.start_chapter <= f.end_chapter {
                    f.end_chapter
                } else {
                    f.start_chapter
                };
                lo <= ch && ch <= hi
            }
        },
    }
}

/// The questions of `pool` that pass `filters`, borrowing `pool` itself when
/// there is no filter or every question passes.
pub fn filter_by_books_cow<'a>(pool: &'a [QuestionRecord], filters: &[BookFilter]) -> (r: Cow<
    'a,
    [QuestionRecord],
>)
    ensures
        r@ == books_filtered(pool@, filters@),
        (r matches Cow::Borrowed(_)) ==> r@ == pool@,
        (r matches Cow::Borrowed(_)) <==> (filters@.len() == 0 || forall|i: int|
            0 <= i < pool@.len() ==> selected_by(filters@, #[trigger] pool@[i])),
{
    if filters.len() == 0 {
        return Cow::Borrowed(pool);
    }
    let n = pool.len();
    let mut all = true;
    let mut i: usize = 0;
    while i < n
        invariant
            i <= n,
            n == pool@.len(),
            all == forall|j: int| 0 <= j < i ==> selected_by(filters@, #[trigger] pool@[j]),
        decreases n - i,
    {
        if !selects(filters, &pool[i]) {
            all = false;
        }
        i = i + 1;
    }
    let ghost pred = |q: QuestionRecord| selected_by(filters@, q);
    if all {
        proof {
            assert forall|k: int| 0 <= k <= n implies #[trigger] pool@.take(k).filter(pred)
                == pool@.take(k) by {
                lemma_filter_keeps_all(pool@.take(k), pred);
            }
            assert(pool@.take(n as int) =~= pool@);
        }
        return Cow::Borrowed(pool);
    }
    let mut kept: Vec<QuestionRecord> = Vec::new();
    let mut k: usize = 0;
    while k < n
        invariant
            k <= n,
            n == pool@.len(),
            pred == (|q: QuestionRecord| selected_by(filters@, q)),
            kept@ == pool@.take(k as int).filter(pred),
        decreases n - k,
    {
        proof {
            assert(pool@.take(k + 1) =~= pool@.take(k as int).push(pool@[k as int]));
            pool@.take(k as int).lemma_filter_push(pool@[k as int], pred);
        }
        if selects(filters, &pool[k]) {
            kept.push(pool[k].clone());
        }
        k = k + 1;
    }
    assert(pool@.take(n as int) =~= pool@);
    Cow::Owned(kept)
}

proof fn lemma_filter_keeps_all<A>(s: Seq<A>, p: spec_fn(A) -> bool)
    requires
        forall|i: int| 0 <= i < s.len() ==> p(#[trigger] s[i]),
    ensures
        s.filter(p) == s,
    decreases s.len(),
{
    if s.len() > 0 {
        lemma_filter_keeps_all(s.drop_last(), p);
        assert(s.drop_last().push(s.last()) =~= s);
        s.drop_last().lemma_filter_push(s.last(), p);
    } else {
        reveal(Seq::filter);
    }
}

/// The questions of `pool` that pass `filters`, as an owned vector.
pub fn filter_by_books(pool: &[QuestionRecord], filters: &[BookFilter]) -> (r: Vec<QuestionRecord>)
    ensures
        r@ == books_filtered(pool@, filters@),
{
    match filter_by_books_cow(pool, filters) {
        Cow::Owned(v) => v,
        Cow::Borrowed(s) => copy_records(s),
    }
}

/// A copy of `records`.
pub fn copy_records(records: &[QuestionRecord]) -> (r: Vec<QuestionRecord>)
    ensures
        r@ == records@,
{
    let mut out: Vec<QuestionRecord> = Vec::new();
    let mut i: usize = 0;
    while i < records.len()
        invariant
            i <= records@.len(),
            out@ == records@.take(i as int),
        decreases records@.len() - i,
    {
        out.push(records[i].clone());
        i = i + 1;
        proof {
            assert(out@ =~= records@.take(i as int));
        }
    }
    assert(records@.take(records@.len() as int) =~= records@);
    out
}


/// The header row of `text` (or the text of the reader's error) and each
/// later record as its fields (or `None` where that record could not be
/// read), as the `csv` crate's reader, with a header row, yields them.
pub uninterp spec fn csv_table(text: Seq<char>) -> (
    Result<Seq<Seq<char>>, Seq<char>>,
    Seq<Option<Seq<Seq<char>>>>,
);

/// The records of a CSV text: its header row and the later rows.
pub struct CsvTable {
    pub headers: Result<Vec<String>, String>,
    pub rows: Vec<Option<Vec<String>>>,
}

pub open spec fn row_texts(r: Option<Vec<String>>) -> Option<Seq<Seq<char>>> {
    match r {
        Some(f) => Some(texts(f@)),
        None => None,
    }
}

impl View for CsvTable {
    type V = (Result<Seq<Seq<char>>, Seq<char>>, Seq<Option<Seq<Seq<char>>>>);

    open spec fn view(&self) -> Self::V {
        (
            match self.headers {
                Ok(h) => Ok(texts(h@)),
                Err(e) => Err(e@),
            },
            self.rows@.map_values(|r: Option<Vec<String>>| row_texts(r)),
        )
    }
}

/// Reads `text` with `csv::ReaderBuilder` (header row on, other settings at
/// their defaults): `Reader::headers`, then every item of `Reader::records`.
/// The contract names the result and claims nothing more of it.
#[verifier::external_body]
fn read_csv_table(text: &str) -> (t: CsvTable)
    ensures
        t@ == csv_table(text@),
{
    let mut rdr = csv::ReaderBuilder::new().has_headers(true).from_reader(text.as_bytes());
    let headers = match rdr.headers() {
        Ok(h) => Ok(h.iter().map(|f| f.to_string()).collect()),
        Err(e) => Err(format!("{e}")),
    };
    let rows = rdr.records().map(|r| r.ok().map(|rec| rec.iter().map(|f| f.to_string()).collect())).collect();
    CsvTable { headers, rows }
}

/// What `str::to_lowercase` gives back (Unicode lower case).
pub uninterp spec fn lowercase(s: Seq<char>) -> Seq<char>;

/// `str::to_lowercase`; the contract names the result, and states what the
/// documentation gives for a text of ASCII characters only: Unicode lower
/// case maps `A`–`Z` to `a`–`z` and keeps every other ASCII character.
#[verifier::external_body]
fn to_lowercase_text(s: &str) -> (r: String)
    ensures
        r@ == lowercase(s@),
        (forall|i: int| 0 <= i < s@.len() ==> #[trigger] s@[i] < '\u{80}') ==> r@
            == ascii_lower_text(s@),
{
    s.to_lowercase()
}

/// A header cell as the columns are matched: trimmed, leading byte-order
/// marks dropped, lower-cased.
pub open spec fn header_name(h: Seq<char>) -> Seq<char> {
    lowercase(strip_bom(trim(h)))
}

/// The first position of `name` in `cols`.
pub open spec fn first_position(cols: Seq<Seq<char>>, name: Seq<char>) -> Option<int> {
    if exists|i: int| 0 <= i < cols.len() && cols[i] == name {
        Some(
            choose|i: int|
                0 <= i < cols.len() && cols[i] == name && forall|j: int| 0 <= j < i ==> cols[j] != name,
        )
    } else {
        None
    }
}

/// Where the four required columns stand.
#[derive(Debug, Clone, Copy)]
pub struct ColumnIndexes {
    pub question: usize,
    pub qtype: usize,
    pub reference: usize,
    pub answer: usize,
}

/// The columns `question`, `type`, `reference` and `answer` among the
/// normalised header names `cols`, each at its first position.
pub open spec fn column_positions(cols: Seq<Seq<char>>) -> Option<ColumnIndexes> {
    match (
        first_position(cols, "question"@),
        first_position(cols, "type"@),
        first_position(cols, "reference"@),
        first_position(cols, "answer"@),
    ) {
        (Some(q), Some(t), Some(r), Some(a)) => Some(
            ColumnIndexes {
                question: q as usize,
                qtype: t as usize,
                reference: r as usize,
                answer: a as usize,
            },
        ),
        _ => None,
    }
}

pub open spec fn missing_message(cols: Seq<Seq<char>>, name: Seq<char>) -> Seq<Seq<char>> {
    if first_position(cols, name) is None {
        seq!["Missing required column: "@ + name]
    } else {
        Seq::empty()
    }
}

/// One message per required column that `cols` lacks, in the order
/// question, type, reference, answer.
pub open spec fn missing_columns(cols: Seq<Seq<char>>) -> Seq<Seq<char>> {
    missing_message(cols, "question"@) + missing_message(cols, "type"@) + missing_message(
        cols,
        "reference"@,
    ) + missing_message(cols, "answer"@)
}

fn find_column(cols: &Vec<String>, name: &str) -> (r: Option<usize>)
    ensures
        r matches Some(i) ==> first_position(texts(cols@), name@) == Some(i as int),
        r is None ==> first_position(texts(cols@), name@) is None,
{
    let ghost t = texts(cols@);
    let wanted = name.to_string();
    let mut i: usize = 0;
    while i < cols.len()
        invariant
            i <= cols@.len(),
            t == texts(cols@),
            wanted@ == name@,
            forall|j: int| 0 <= j < i ==> t[j] != name@,
        decreases cols@.len() - i,
    {
        if cols[i] == wanted {
            proof {
                let w = choose|x: int|
                    0 <= x < t.len() && t[x] == name@ && forall|j: int| 0 <= j < x ==> t[j] != name@;
                assert(t[i as int] == name@);
                assert(w == i);
            }
            return Some(i);
        }
        i = i + 1;
    }
    None
}

fn missing_column_message(name: &str) -> (r: String)
    ensures
        r@ == "Missing required column: "@ + name@,
{
    let mut out: Vec<char> = Vec::new();
    push_text(&mut out, "Missing required column: ");
    push_text(&mut out, name);
    string_of(out.as_slice())
}

/// The positions of the required columns among the normalised header names
/// `cols`, or one message per missing column.
pub fn column_indexes(cols: &Vec<String>) -> (r: Result<ColumnIndexes, Vec<String>>)
    ensures
        match r {
            Ok(idx) => column_positions(texts(cols@)) == Some(idx),
            Err(m) => column_positions(texts(cols@)) is None && texts(m@) == missing_columns(
                texts(cols@),
            ),
        },
{
    let q = find_column(cols, "question");
    let t = find_column(cols, "type");
    let rf = find_column(cols, "reference");
    let a = find_column(cols, "answer");
    match (q, t, rf, a) {
        (Some(q), Some(t), Some(rf), Some(a)) => Ok(
            ColumnIndexes { question: q, qtype: t, reference: rf, answer: a },
        ),
        _ => {
            let mut missing: Vec<String> = Vec::new();
            let ghost c = texts(cols@);
            if q.is_none() {
                missing.push(missing_column_message("question"));
            }
            assert(texts(missing@) =~= missing_message(c, "question"@));
            if t.is_none() {
                missing.push(missing_column_message("type"));
            }
            assert(texts(missing@) =~= missing_message(c, "question"@) + missing_message(c, "type"@));
            if rf.is_none() {
                missing.push(missing_column_message("reference"));
            }
            assert(texts(missing@) =~= missing_message(c, "question"@) + missing_message(c, "type"@)
                + missing_message(c, "reference"@));
            if a.is_none() {
                missing.push(missing_column_message("answer"));
            }
            assert(texts(missing@) =~= missing_columns(c));
            Err(missing)
        },
    }
}

/// The normalised names of `headers`, matched against the required columns.
fn required_column_indexes(headers: &Vec<String>) -> (r: Result<ColumnIndexes, Vec<String>>)
    ensures
        match r {
            Ok(idx) => column_positions(texts(headers@).map_values(|h: Seq<char>| header_name(h)))
                == Some(idx),
            Err(m) => column_positions(texts(headers@).map_values(|h: Seq<char>| header_name(h)))
                is None && texts(m@) == missing_columns(
                texts(headers@).map_values(|h: Seq<char>| header_name(h)),
            ),
        },
{
    let mut names: Vec<String> = Vec::new();
    let mut i: usize = 0;
    while i < headers.len()
        invariant
            i <= headers@.len(),
            names@.len() == i,
            texts(names@) == texts(headers@).take(i as int).map_values(
                |h: Seq<char>| header_name(h),
            ),
        decreases headers@.len() - i,
    {
        let cs = chars_of(headers[i].as_str());
        let (x, y) = trim_bounds(cs.as_slice());
        let trimmed = &cs[x..y];
        let b = bom_end(trimmed);
        let bare = string_of(&trimmed[b..trimmed.len()]);
        proof {
            assert(trimmed@.subrange(b as int, trimmed@.len() as int) =~= trimmed@.skip(b as int));
        }
        let lower = to_lowercase_text(bare.as_str());
        proof {
            assert(bare@ == strip_bom(trim(headers@[i as int]@)));
            assert(lower@ == header_name(headers@[i as int]@));
        }
        let ghost old_names = names@;
        names.push(lower);
        i = i + 1;
        proof {
            let target = texts(headers@).take(i as int).map_values(|h: Seq<char>| header_name(h));
            let prev = texts(headers@).take(i - 1).map_values(|h: Seq<char>| header_name(h));
            assert forall|j: int| 0 <= j < i - 1 implies target[j] == prev[j] by {}
            assert forall|j: int| 0 <= j < i - 1 implies texts(names@)[j] == texts(old_names)[j] by {
                assert(names@[j] == old_names[j]);
            }
            assert(texts(names@) =~= texts(headers@).take(i as int).map_values(
                |h: Seq<char>| header_name(h),
            ));
        }
    }
    proof {
        assert(texts(headers@).take(i as int) =~= texts(headers@));
    }
    column_indexes(&names)
}


/// Field `i` of a record, trimmed; empty when the record has no such field.
pub open spec fn field(row: Seq<Seq<char>>, i: usize) -> Seq<char> {
    if i < row.len() {
        trim(row[i as int])
    } else {
        Seq::empty()
    }
}

/// The four fields of a record, taken from the required columns.
pub open spec fn row_fields(idx: ColumnIndexes, row: Seq<Seq<char>>) -> QuestionText {
    QuestionText {
        question: field(row, idx.question),
        qtype: field(row, idx.qtype),
        reference: field(row, idx.reference),
        answer: field(row, idx.answer),
    }
}

/// A row whose question starts with `LICENSE` is a notice, not a question.
pub open spec fn is_license(question: Seq<char>) -> bool {
    "LICENSE"@.is_prefix_of(question)
}

/// None of the four fields is empty.
pub open spec fn complete(t: QuestionText) -> bool {
    t.question.len() > 0 && t.qtype.len() > 0 && t.reference.len() > 0 && t.answer.len() > 0
}

/// The question a record holds: not a notice, no empty field, and a
/// reference whose book and chapter parse.
pub open spec fn row_question(idx: ColumnIndexes, row: Seq<Seq<char>>) -> Option<QuestionText> {
    let t = row_fields(idx, row);
    if !is_license(t.question) && complete(t) && book_and_chapter(t.reference) is Some {
        Some(t)
    } else {
        None
    }
}

/// A complete, non-notice record whose reference does not parse.
pub open spec fn bad_reference(idx: ColumnIndexes, row: Seq<Seq<char>>) -> bool {
    let t = row_fields(idx, row);
    !is_license(t.question) && complete(t) && book_and_chapter(t.reference) is None
}

/// The questions of the readable rows, in row order.
pub open spec fn parsed_questions(idx: ColumnIndexes, rows: Seq<Option<Seq<Seq<char>>>>) -> Seq<
    QuestionText,
>
    decreases rows.len(),
{
    if rows.len() == 0 {
        Seq::empty()
    } else {
        let prev = parsed_questions(idx, rows.drop_last());
        match rows.last() {
            Some(row) => match row_question(idx, row) {
                Some(q) => prev.push(q),
                None => prev,
            },
            None => prev,
        }
    }
}

/// The question pool that a CSV table holds: none when the header row could
/// not be read or lacks a required column.
pub open spec fn pool_of_table(
    t: (Result<Seq<Seq<char>>, Seq<char>>, Seq<Option<Seq<Seq<char>>>>),
) -> Seq<QuestionText> {
    match t.0 {
        Ok(h) => match column_positions(h.map_values(|x: Seq<char>| header_name(x))) {
            Some(idx) => parsed_questions(idx, t.1),
            None => Seq::empty(),
        },
        Err(_) => Seq::empty(),
    }
}

/// The text of each question.
pub open spec fn question_texts(v: Seq<QuestionRecord>) -> Seq<QuestionText> {
    v.map_values(|q: QuestionRecord| q@)
}

/// What one record of a pool's CSV text holds.
pub enum RowRead {
    Question(QuestionRecord),
    BadReference(String),
    Skipped,
}

fn field_text(row: &Vec<String>, i: usize) -> (r: String)
    ensures
        r@ == field(texts(row@), i),
{
    if i < row.len() {
        trim_text(row[i].as_str())
    } else {
        String::new()
    }
}

fn starts_with_license(s: &str) -> (r: bool)
    ensures
        r == is_license(s@),
{
    let cs = chars_of(s);
    proof {
        reveal_strlit("LICENSE");
    }
    let r = cs.len() >= 7 && cs[0] == 'L' && cs[1] == 'I' && cs[2] == 'C' && cs[3] == 'E' && cs[4]
        == 'N' && cs[5] == 'S' && cs[6] == 'E';
    proof {
        let lic = "LICENSE"@;
        assert(lic.len() == 7);
        assert(lic[0] == 'L' && lic[1] == 'I' && lic[2] == 'C' && lic[3] == 'E' && lic[4] == 'N'
            && lic[5] == 'S' && lic[6] == 'E');
        if r {
            assert(lic =~= s@.subrange(0, 7));
        } else if is_license(s@) {
            assert(s@.subrange(0, 7)[0] == lic[0]);
            assert(s@.subrange(0, 7)[1] == lic[1]);
            assert(s@.subrange(0, 7)[2] == lic[2]);
            assert(s@.subrange(0, 7)[3] == lic[3]);
            assert(s@.subrange(0, 7)[4] == lic[4]);
            assert(s@.subrange(0, 7)[5] == lic[5]);
            assert(s@.subrange(0, 7)[6] == lic[6]);
        }
    }
    r
}

fn is_empty_text(s: &str) -> (r: bool)
    ensures
        r == (s@.len() == 0),
{
    chars_of(s).len() == 0
}

/// The question of one record, a bad reference, or nothing.
pub fn read_row(idx: ColumnIndexes, row: &Vec<String>) -> (r: RowRead)
    ensures
        match r {
            RowRead::Question(q) => row_question(idx, texts(row@)) == Some(q@),
            RowRead::BadReference(rf) => bad_reference(idx, texts(row@)) && rf@ == field(
                texts(row@),
                idx.reference,
            ),
            RowRead::Skipped => row_question(idx, texts(row@)) is None && !bad_reference(
                idx,
                texts(row@),
            ),
        },
{
    let question = field_text(row, idx.question);
    let qtype = field_text(row, idx.qtype);
    let reference = field_text(row, idx.reference);
    let answer = field_text(row, idx.answer);
    if starts_with_license(question.as_str()) {
        return RowRead::Skipped;
    }
    if is_empty_text(question.as_str()) || is_empty_text(qtype.as_str()) || is_empty_text(
        reference.as_str(),
    ) || is_empty_text(answer.as_str()) {
        return RowRead::Skipped;
    }
    if parse_book_and_chapter(reference.as_str()).is_none() {
        return RowRead::BadReference(reference);
    }
    RowRead::Question(QuestionRecord { question, qtype, reference, answer })
}

/// The questions of the readable records, in order.
pub fn parse_rows(idx: ColumnIndexes, rows: &Vec<Option<Vec<String>>>) -> (r: Vec<QuestionRecord>)
    ensures
        question_texts(r@) == parsed_questions(
            idx,
            rows@.map_values(|x: Option<Vec<String>>| row_texts(x)),
        ),
{
    let ghost all = rows@.map_values(|x: Option<Vec<String>>| row_texts(x));
    let mut out: Vec<QuestionRecord> = Vec::new();
    let mut k: usize = 0;
    while k < rows.len()
        invariant
            k <= rows@.len(),
            all == rows@.map_values(|x: Option<Vec<String>>| row_texts(x)),
            question_texts(out@) == parsed_questions(idx, all.take(k as int)),
        decreases rows@.len() - k,
    {
        let ghost before = out@;
        proof {
            assert(all.take(k + 1).drop_last() =~= all.take(k as int));
            assert(all.take(k + 1).last() == row_texts(rows@[k as int]));
        }
        match &rows[k] {
            Some(row) => match read_row(idx, row) {
                RowRead::Question(q) => {
                    out.push(q);
                    proof {
                        assert(question_texts(out@) =~= question_texts(before).push(out@.last()@));
                    }
                },
                _ => {},
            },
            None => {},
        }
        k = k + 1;
    }
    assert(all.take(rows@.len() as int) =~= all);
    out
}

/// The questions of a pool's CSV text: the rows under a header row that
/// names the columns `question`, `type`, `reference` and `answer` (in any
/// order, any case, after trimming), less notices, incomplete rows and rows
/// whose reference does not parse.
pub fn parse_csv(csv_text: &str) -> (r: Vec<QuestionRecord>)
    ensures
        question_texts(r@) == pool_of_table(csv_table(csv_text@)),
{
    let table = read_csv_table(csv_text);
    match &table.headers {
        Err(_) => Vec::new(),
        Ok(headers) => match required_column_indexes(headers) {
            Err(_) => Vec::new(),
            Ok(idx) => parse_rows(idx, &table.rows),
        },
    }
}


/// The outcome of checking a pool's CSV text before it is stored.
#[derive(Debug)]
pub struct CsvValidation {
    pub valid_count: usize,
    pub skipped_count: usize,
    pub errors: Vec<String>,
    pub warnings: Vec<String>,
}

/// The counts and message texts of a `CsvValidation`.
pub ghost struct ValidationText {
    pub valid: nat,
    pub skipped: nat,
    pub errors: Seq<Seq<char>>,
    pub warnings: Seq<Seq<char>>,
}

impl View for CsvValidation {
    type V = ValidationText;

    open spec fn view(&self) -> ValidationText {
        ValidationText {
            valid: self.valid_count as nat,
            skipped: self.skipped_count as nat,
            errors: texts(self.errors@),
            warnings: texts(self.warnings@),
        }
    }
}

/// The question types that the generator knows.
pub open spec fn valid_types() -> Seq<Seq<char>> {
    seq![
        "Situation"@,
        "In-What-Book-and-Chapter"@,
        "Quote"@,
        "Reference"@,
        "Verse"@,
        "Context"@,
        "According-To"@,
        "General"@,
    ]
}

/// The types that a pool needs for a standard set.
pub open spec fn required_types() -> Seq<Seq<char>> {
    seq![
        "Situation"@,
        "Quote"@,
        "Reference"@,
        "Verse"@,
        "Context"@,
        "According-To"@,
        "General"@,
    ]
}

/// A type that matches a known type, ignoring ASCII case.
pub open spec fn is_known_type(t: Seq<char>) -> bool {
    exists|i: int| 0 <= i < 8 && #[trigger] eq_ignore_case(t, valid_types()[i])
}

/// The types of the accepted questions, in row order.
pub open spec fn accepted_types(idx: ColumnIndexes, rows: Seq<Option<Seq<Seq<char>>>>) -> Seq<
    Seq<char>,
> {
    parsed_questions(idx, rows).map_values(|q: QuestionText| q.qtype)
}

/// `s` without repeats, each value where it first occurs.
pub open spec fn distinct_in_order(s: Seq<Seq<char>>) -> Seq<Seq<char>>
    decreases s.len(),
{
    if s.len() == 0 {
        s
    } else {
        let d = distinct_in_order(s.drop_last());
        if d.contains(s.last()) {
            d
        } else {
            d.push(s.last())
        }
    }
}

/// The unknown types of the accepted questions, each once.
pub open spec fn unknown_types(idx: ColumnIndexes, rows: Seq<Option<Seq<Seq<char>>>>) -> Seq<
    Seq<char>,
> {
    distinct_in_order(accepted_types(idx, rows).filter(|t: Seq<char>| !is_known_type(t)))
}

/// The required types that no accepted question has, ignoring ASCII case.
pub open spec fn missing_types(idx: ColumnIndexes, rows: Seq<Option<Seq<Seq<char>>>>) -> Seq<
    Seq<char>,
> {
    required_types().filter(
        |r: Seq<char>| !accepted_types(idx, rows).any(|t: Seq<char>| eq_ignore_case(t, r)),
    )
}

/// The warning for row number `n` (the header row is row 1).
pub open spec fn unreadable_row_warning(n: nat) -> Seq<char> {
    "Row "@ + nat_text(n) + ": could not parse CSV record"@
}

pub open spec fn bad_reference_warning(n: nat, reference: Seq<char>) -> Seq<char> {
    "Row "@ + nat_text(n) + ": unparseable reference \""@ + reference + "\""@
}

pub open spec fn unknown_type_warning(t: Seq<char>) -> Seq<char> {
    "Unknown question type \""@ + t
        + "\" — expected one of: Situation, In-What-Book-and-Chapter, Quote, Reference, Verse, Context, According-To, General"@
}

pub open spec fn missing_types_warning(m: Seq<Seq<char>>) -> Seq<char> {
    "Pool is missing required types for standard set generation: "@ + join(m, ", "@)
}

/// The per-row warnings: unreadable records and unparseable references.
pub open spec fn row_warnings(idx: ColumnIndexes, rows: Seq<Option<Seq<Seq<char>>>>) -> Seq<
    Seq<char>,
>
    decreases rows.len(),
{
    if rows.len() == 0 {
        Seq::empty()
    } else {
        let prev = row_warnings(idx, rows.drop_last());
        let n = (rows.len() + 1) as nat;
        match rows.last() {
            None => prev.push(unreadable_row_warning(n)),
            Some(row) => if bad_reference(idx, row) {
                prev.push(bad_reference_warning(n, field(row, idx.reference)))
            } else {
                prev
            },
        }
    }
}

/// The validation of the rows under a header row with the required columns.
pub open spec fn rows_validation(idx: ColumnIndexes, rows: Seq<Option<Seq<Seq<char>>>>) -> ValidationText {
    let valid = parsed_questions(idx, rows).len();
    let missing = missing_types(idx, rows);
    ValidationText {
        valid,
        skipped: (rows.len() - valid) as nat,
        errors: if valid == 0 {
            seq!["No valid questions found after parsing"@]
        } else {
            Seq::empty()
        },
        warnings: row_warnings(idx, rows) + unknown_types(idx, rows).map_values(
            |t: Seq<char>| unknown_type_warning(t),
        ) + if missing.len() > 0 {
            seq![missing_types_warning(missing)]
        } else {
            Seq::empty()
        },
    }
}

/// The validation of a CSV table.
pub open spec fn table_validation(
    t: (Result<Seq<Seq<char>>, Seq<char>>, Seq<Option<Seq<Seq<char>>>>),
) -> ValidationText {
    match t.0 {
        Err(e) => ValidationText {
            valid: 0,
            skipped: 0,
            errors: seq!["Could not read CSV headers: "@ + e],
            warnings: Seq::empty(),
        },
        Ok(h) => {
            let cols = h.map_values(|x: Seq<char>| header_name(x));
            match column_positions(cols) {
                None => ValidationText {
                    valid: 0,
                    skipped: 0,
                    errors: missing_columns(cols),
                    warnings: Seq::empty(),
                },
                Some(idx) => rows_validation(idx, t.1),
            }
        },
    }
}

/// The validation of a pool's CSV text.
pub open spec fn csv_validation(text: Seq<char>) -> ValidationText {
    if trim(text).len() == 0 {
        ValidationText {
            valid: 0,
            skipped: 0,
            errors: seq!["CSV is empty"@],
            warnings: Seq::empty(),
        }
    } else {
        table_validation(csv_table(text))
    }
}

/// Validation counts as valid exactly the questions that parsing keeps, for
/// every text that is not blank (a blank text is refused as empty before it
/// is read).
pub proof fn validation_counts_parsed_questions(text: Seq<char>)
    requires
        trim(text).len() > 0,
    ensures
        csv_validation(text).valid == pool_of_table(csv_table(text)).len(),
{
}

fn valid_type(i: usize) -> (r: &'static str)
    requires
        i < 8,
    ensures
        r@ == valid_types()[i as int],
{
    if i == 0 {
        "Situation"
    } else if i == 1 {
        "In-What-Book-and-Chapter"
    } else if i == 2 {
        "Quote"
    } else if i == 3 {
        "Reference"
    } else if i == 4 {
        "Verse"
    } else if i == 5 {
        "Context"
    } else if i == 6 {
        "According-To"
    } else {
        "General"
    }
}

fn required_type(i: usize) -> (r: &'static str)
    requires
        i < 7,
    ensures
        r@ == required_types()[i as int],
{
    if i == 0 {
        "Situation"
    } else if i == 1 {
        "Quote"
    } else if i == 2 {
        "Reference"
    } else if i == 3 {
        "Verse"
    } else if i == 4 {
        "Context"
    } else if i == 5 {
        "According-To"
    } else {
        "General"
    }
}

fn known_type(t: &str) -> (r: bool)
    ensures
        r == is_known_type(t@),
{
    let mut i: usize = 0;
    while i < 8
        invariant
            i <= 8,
            forall|j: int| 0 <= j < i ==> !eq_ignore_case(t@, #[trigger] valid_types()[j]),
        decreases 8 - i,
    {
        if text_eq_ignore_case(t, valid_type(i)) {
            return true;
        }
        i = i + 1;
    }
    false
}

fn contains_text(v: &Vec<String>, s: &String) -> (r: bool)
    ensures
        r == texts(v@).contains(s@),
{
    let mut i: usize = 0;
    while i < v.len()
        invariant
            i <= v@.len(),
            forall|j: int| 0 <= j < i ==> v@[j]@ != s@,
        decreases v@.len() - i,
    {
        if v[i] == *s {
            proof {
                assert(texts(v@)[i as int] == s@);
            }
            return true;
        }
        i = i + 1;
    }
    proof {
        if texts(v@).contains(s@) {
            let j = choose|j: int| 0 <= j < texts(v@).len() && texts(v@)[j] == s@;
            assert(v@[j]@ == s@);
        }
    }
    false
}

proof fn lemma_any_push(s: Seq<Seq<char>>, x: Seq<char>, p: spec_fn(Seq<char>) -> bool)
    ensures
        s.push(x).any(p) == (s.any(p) || p(x)),
{
    let t = s.push(x);
    if s.any(p) {
        let i = choose|i: int| 0 <= i < s.len() && p(s[i]);
        assert(t[i] == s[i]);
    }
    if p(x) {
        assert(t[s.len() as int] == x);
    }
    if t.any(p) {
        let i = choose|i: int| 0 <= i < t.len() && p(t[i]);
        if i < s.len() {
            assert(t[i] == s[i]);
        }
    }
}

fn row_warning(n: u128, reference: Option<&str>) -> (r: String)
    ensures
        reference matches Some(rf) ==> r@ == bad_reference_warning(n as nat, rf@),
        reference is None ==> r@ == unreadable_row_warning(n as nat),
{
    let mut out: Vec<char> = Vec::new();
    push_text(&mut out, "Row ");
    let digits = u128_text(n);
    push_chars(&mut out, digits.as_slice());
    match reference {
        None => push_text(&mut out, ": could not parse CSV record"),
        Some(rf) => {
            push_text(&mut out, ": unparseable reference \"");
            push_text(&mut out, rf);
            push_text(&mut out, "\"");
        },
    }
    string_of(out.as_slice())
}

fn unknown_warning(t: &str) -> (r: String)
    ensures
        r@ == unknown_type_warning(t@),
{
    let mut out: Vec<char> = Vec::new();
    push_text(&mut out, "Unknown question type \"");
    push_text(&mut out, t);
    push_text(
        &mut out,
        "\" — expected one of: Situation, In-What-Book-and-Chapter, Quote, Reference, Verse, Context, According-To, General",
    );
    string_of(out.as_slice())
}

fn missing_warning(m: &Vec<&str>) -> (r: String)
    requires
        m@.len() > 0,
    ensures
        r@ == missing_types_warning(m@.map_values(|x: &str| x@)),
{
    let ghost items = m@.map_values(|x: &str| x@);
    let mut out: Vec<char> = Vec::new();
    push_text(&mut out, "Pool is missing required types for standard set generation: ");
    let ghost head = out@;
    let mut i: usize = 0;
    while i < m.len()
        invariant
            i <= m@.len(),
            items == m@.map_values(|x: &str| x@),
            out@ == head + join(items.take(i as int), ", "@),
        decreases m@.len() - i,
    {
        proof {
            assert(items.take(i + 1).drop_last() =~= items.take(i as int));
        }
        if i > 0 {
            push_text(&mut out, ", ");
        }
        push_text(&mut out, m[i]);
        i = i + 1;
        proof {
            if i == 1 {
                assert(join(items.take(0), ", "@) =~= Seq::empty());
            }
            assert(out@ =~= head + join(items.take(i as int), ", "@));
        }
    }
    assert(items.take(m@.len() as int) =~= items);
    string_of(out.as_slice())
}

/// The validation of the records under a header row whose required columns
/// stand at `idx`.
pub fn validate_rows(idx: ColumnIndexes, rows: &Vec<Option<Vec<String>>>) -> (r: CsvValidation)
    ensures
        r@ == rows_validation(idx, rows@.map_values(|x: Option<Vec<String>>| row_texts(x))),
{
    let ghost all = rows@.map_values(|x: Option<Vec<String>>| row_texts(x));
    let ghost unknown_pred = |t: Seq<char>| !is_known_type(t);
    let mut valid: usize = 0;
    let mut skipped: usize = 0;
    let mut warnings: Vec<String> = Vec::new();
    let mut unknown: Vec<String> = Vec::new();
    let mut seen: Vec<bool> = vec![false, false, false, false, false, false, false];
    let mut k: usize = 0;
    proof {
        assert(all.take(0) =~= Seq::<Option<Seq<Seq<char>>>>::empty());
        assert(accepted_types(idx, all.take(0)) =~= Seq::<Seq<char>>::empty());
        reveal(Seq::filter);
        assert(texts(unknown@) =~= unknown_types(idx, all.take(0)));
        assert(texts(warnings@) =~= row_warnings(idx, all.take(0)));
    }
    while k < rows.len()
        invariant
            k <= rows@.len(),
            all == rows@.map_values(|x: Option<Vec<String>>| row_texts(x)),
            unknown_pred == (|t: Seq<char>| !is_known_type(t)),
            valid == parsed_questions(idx, all.take(k as int)).len(),
            valid + skipped == k,
            texts(warnings@) == row_warnings(idx, all.take(k as int)),
            texts(unknown@) == unknown_types(idx, all.take(k as int)),
            seen@.len() == 7,
            forall|j: int|
                0 <= j < 7 ==> #[trigger] seen@[j] == accepted_types(idx, all.take(k as int)).any(
                    |t: Seq<char>| eq_ignore_case(t, required_types()[j]),
                ),
        decreases rows@.len() - k,
    {
        let ghost prefix = all.take(k as int);
        let ghost next = all.take(k + 1);
        let ghost acc = accepted_types(idx, prefix);
        let ghost old_warnings = warnings@;
        let ghost old_unknown = unknown@;
        proof {
            assert(next.drop_last() =~= prefix);
            assert(next.last() == row_texts(rows@[k as int]));
        }
        let row_number = (k as u128) + 2;
        match &rows[k] {
            None => {
                skipped = skipped + 1;
                warnings.push(row_warning(row_number, None));
                proof {
                    assert(texts(warnings@) =~= texts(old_warnings).push(warnings@.last()@));
                    assert(accepted_types(idx, next) == acc);
                }
            },
            Some(row) => match read_row(idx, row) {
                RowRead::Skipped => {
                    skipped = skipped + 1;
                    proof {
                        assert(accepted_types(idx, next) == acc);
                    }
                },
                RowRead::BadReference(rf) => {
                    skipped = skipped + 1;
                    warnings.push(row_warning(row_number, Some(rf.as_str())));
                    proof {
                        assert(texts(warnings@) =~= texts(old_warnings).push(warnings@.last()@));
                        assert(accepted_types(idx, next) == acc);
                    }
                },
                RowRead::Question(q) => {
                    valid = valid + 1;
                    let ghost t = q.qtype@;
                    proof {
                        assert(parsed_questions(idx, next) == parsed_questions(idx, prefix).push(q@));
                        assert(accepted_types(idx, next) =~= acc.push(t));
                        acc.lemma_filter_push(t, unknown_pred);
                    }
                    if !known_type(q.qtype.as_str()) {
                        let present = contains_text(&unknown, &q.qtype);
                        if !present {
                            unknown.push(q.qtype.clone());
                            proof {
                                assert(texts(unknown@) =~= texts(old_unknown).push(t));
                            }
                        }
                    }
                    proof {
                        let f = acc.filter(unknown_pred);
                        if unknown_pred(t) {
                            assert(f.push(t).drop_last() =~= f);
                        }
                    }
                    let mut j: usize = 0;
                    while j < 7
                        invariant
                            j <= 7,
                            seen@.len() == 7,
                            t == q.qtype@,
                            forall|x: int|
                                0 <= x < j ==> #[trigger] seen@[x] == acc.push(t).any(
                                    |s: Seq<char>| eq_ignore_case(s, required_types()[x]),
                                ),
                            forall|x: int|
                                j <= x < 7 ==> #[trigger] seen@[x] == acc.any(
                                    |s: Seq<char>| eq_ignore_case(s, required_types()[x]),
                                ),
                        decreases 7 - j,
                    {
                        proof {
                            lemma_any_push(
                                acc,
                                t,
                                |s: Seq<char>| eq_ignore_case(s, required_types()[j as int]),
                            );
                        }
                        let hit = text_eq_ignore_case(q.qtype.as_str(), required_type(j));
                        let now = seen[j] || hit;
                        seen.set(j, now);
                        j = j + 1;
                    }
                },
            },
        }
        k = k + 1;
    }
    assert(all.take(rows@.len() as int) =~= all);
    let ghost acc = accepted_types(idx, all);
    let ghost miss_pred = |r: Seq<char>| !acc.any(|t: Seq<char>| eq_ignore_case(t, r));
    let mut missing: Vec<&str> = Vec::new();
    let mut j: usize = 0;
    while j < 7
        invariant
            j <= 7,
            seen@.len() == 7,
            miss_pred == (|r: Seq<char>| !acc.any(|t: Seq<char>| eq_ignore_case(t, r))),
            forall|x: int|
                0 <= x < 7 ==> #[trigger] seen@[x] == acc.any(
                    |t: Seq<char>| eq_ignore_case(t, required_types()[x]),
                ),
            missing@.map_values(|x: &str| x@) == required_types().take(j as int).filter(miss_pred),
        decreases 7 - j,
    {
        let name = required_type(j);
        proof {
            assert(required_types().take(j + 1) =~= required_types().take(j as int).push(name@));
            required_types().take(j as int).lemma_filter_push(name@, miss_pred);
        }
        let ghost before = missing@;
        if !seen[j] {
            missing.push(name);
            proof {
                assert(missing@.map_values(|x: &str| x@) =~= before.map_values(|x: &str| x@).push(
                    name@,
                ));
            }
        }
        j = j + 1;
    }
    assert(required_types().take(7) =~= required_types());
    let mut errors: Vec<String> = Vec::new();
    if valid == 0 {
        errors.push("No valid questions found after parsing".to_string());
    }
    let ghost row_part = warnings@;
    let mut u: usize = 0;
    while u < unknown.len()
        invariant
            u <= unknown@.len(),
            texts(warnings@) == texts(row_part) + texts(unknown@).take(u as int).map_values(
                |t: Seq<char>| unknown_type_warning(t),
            ),
        decreases unknown@.len() - u,
    {
        let ghost before = warnings@;
        warnings.push(unknown_warning(unknown[u].as_str()));
        u = u + 1;
        proof {
            assert(texts(warnings@) =~= texts(before).push(warnings@.last()@));
            assert(texts(unknown@).take(u as int) =~= texts(unknown@).take(u - 1).push(
                unknown@[u - 1]@,
            ));
            assert(texts(warnings@) =~= texts(row_part) + texts(unknown@).take(u as int).map_values(
                |t: Seq<char>| unknown_type_warning(t),
            ));
        }
    }
    assert(texts(unknown@).take(unknown@.len() as int) =~= texts(unknown@));
    if missing.len() > 0 {
        let ghost before = warnings@;
        warnings.push(missing_warning(&missing));
        proof {
            assert(texts(warnings@) =~= texts(before).push(warnings@.last()@));
        }
    }
    let r = CsvValidation { valid_count: valid, skipped_count: skipped, errors, warnings };
    proof {
        let spec_r = rows_validation(idx, all);
        assert(r@.errors =~= spec_r.errors);
        assert(r@.warnings =~= spec_r.warnings);
    }
    r
}


/// Checks a pool's CSV text before it is stored: an empty text, an unreadable
/// header row or a missing required column is an error; otherwise every row
/// is counted as valid or skipped, with a warning for each unreadable row,
/// unparseable reference and unknown type, and one for the types that a
/// standard set needs and the pool lacks.
pub fn validate_csv(csv_text: &str) -> (r: CsvValidation)
    ensures
        r@ == csv_validation(csv_text@),
{
    let trimmed = trim_text(csv_text);
    if is_empty_text(trimmed.as_str()) {
        let r = CsvValidation {
            valid_count: 0,
            skipped_count: 0,
            errors: vec!["CSV is empty".to_string()],
            warnings: Vec::new(),
        };
        assert(r@.errors =~= seq!["CSV is empty"@]);
        assert(r@.warnings =~= Seq::<Seq<char>>::empty());
        return r;
    }
    let table = read_csv_table(csv_text);
    match &table.headers {
        Err(e) => {
            let mut out: Vec<char> = Vec::new();
            push_text(&mut out, "Could not read CSV headers: ");
            push_text(&mut out, e.as_str());
            let r = CsvValidation {
                valid_count: 0,
                skipped_count: 0,
                errors: vec![string_of(out.as_slice())],
                warnings: Vec::new(),
            };
            assert(r@.errors =~= seq!["Could not read CSV headers: "@ + e@]);
            assert(r@.warnings =~= Seq::<Seq<char>>::empty());
            r
        },
        Ok(headers) => match required_column_indexes(headers) {
            Err(missing) => {
                let r = CsvValidation {
                    valid_count: 0,
                    skipped_count: 0,
                    errors: missing,
                    warnings: Vec::new(),
                };
                assert(r@.warnings =~= Seq::<Seq<char>>::empty());
                r
            },
            Ok(idx) => validate_rows(idx, &table.rows),
        },
    }
}


/// The generator's random source: seeded when a seed is given.
fn make_rng(seed: Option<u64>) -> (r: Draws)
    ensures
        r.seed() == seed,
        r.history() == Seq::<(u8, nat)>::empty(),
{
    match seed {
        Some(v) => Draws::seeded(v),
        None => Draws::from_entropy(),
    }
}

/// The chapter key of question `i` of `pool`.
pub open spec fn key_of(pool: Seq<QuestionRecord>, i: int) -> Option<Seq<char>> {
    chapter_key_of(pool[i].reference@)
}

/// The chapter keys of `pool`, in order, one per question whose reference parses.
pub open spec fn key_list(pool: Seq<QuestionRecord>) -> Seq<Seq<char>>
    decreases pool.len(),
{
    if pool.len() == 0 {
        Seq::empty()
    } else {
        let prev = key_list(pool.drop_last());
        match chapter_key_of(pool.last().reference@) {
            Some(k) => prev.push(k),
            None => prev,
        }
    }
}

/// How many distinct chapters `pool` covers.
pub open spec fn chapter_count(pool: Seq<QuestionRecord>) -> nat {
    distinct_in_order(key_list(pool)).len()
}

/// How often one chapter may occur in a standard set: `ceil(20 / chapters)`,
/// at least 2 (a pool without chapters counts as one).
pub open spec fn max_appearances(pool: Seq<QuestionRecord>) -> int {
    let c = if chapter_count(pool) == 0 {
        1
    } else {
        chapter_count(pool) as int
    };
    let q = (20 + c - 1) / c;
    if q < 2 {
        2
    } else {
        q
    }
}

/// The types of a standard set, position by position: the opening type
/// (Situation, or In-What-Book-and-Chapter), Quote, Reference, Verse,
/// Context, four According-To and eleven General.
pub open spec fn standard_pattern(situation: bool) -> Seq<Seq<char>> {
    seq![
        if situation {
            "Situation"@
        } else {
            "In-What-Book-and-Chapter"@
        },
        "Quote"@,
        "Reference"@,
        "Verse"@,
        "Context"@,
        "According-To"@,
        "According-To"@,
        "According-To"@,
        "According-To"@,
        "General"@,
        "General"@,
        "General"@,
        "General"@,
        "General"@,
        "General"@,
        "General"@,
        "General"@,
        "General"@,
        "General"@,
        "General"@,
    ]
}

/// How many of the questions at `set` belong to chapter `k`.
pub open spec fn uses_of(pool: Seq<QuestionRecord>, set: Seq<usize>, k: Seq<char>) -> nat {
    set.filter(in_chapter(pool, k)).len()
}

/// Positions of `pool` whose chapter is `k`.
pub open spec fn in_chapter(pool: Seq<QuestionRecord>, k: Seq<char>) -> spec_fn(usize) -> bool {
    |j: usize| key_of(pool, j as int) == Some(k)
}

/// Distinct positions of `pool`, each with a chapter, no chapter more than
/// `cap` times.
pub open spec fn spread_ok(pool: Seq<QuestionRecord>, set: Seq<usize>, cap: int) -> bool {
    &&& set.no_duplicates()
    &&& forall|k: int| 0 <= k < set.len() ==> #[trigger] set[k] < pool.len() && key_of(pool, set[k] as int) is Some
    &&& forall|c: Seq<char>| #[trigger] uses_of(pool, set, c) <= cap
}

/// `ids` are the positions of a standard set of `pool`: twenty distinct
/// questions with chapters, no chapter more than `max_appearances` times, and
/// in some order exactly the types of `standard_pattern`.
pub open spec fn standard_ids(pool: Seq<QuestionRecord>, situation: bool, ids: Seq<usize>) -> bool {
    &&& ids.len() == 20
    &&& spread_ok(pool, ids, max_appearances(pool))
    &&& exists|arranged: Seq<usize>|
        #![trigger arranged.to_multiset()]
        arranged.to_multiset() == ids.to_multiset() && arranged.len() == 20 && forall|k: int|
            0 <= k < 20 ==> eq_ignore_case(
                #[trigger] pool[arranged[k] as int].qtype@,
                standard_pattern(situation)[k],
            )
}

/// The questions at `ids`.
pub open spec fn at_positions(pool: Seq<QuestionRecord>, ids: Seq<usize>) -> Seq<QuestionRecord> {
    ids.map_values(|i: usize| pool[i as int])
}

/// What `generate_standard_set` may give back: nothing, or a standard set;
/// from a pool whose picks cannot run out always a standard set.
pub open spec fn standard_outcome(pool: Seq<QuestionRecord>, situation: bool, out: Seq<QuestionRecord>) -> bool {
    &&& out.len() == 0 || exists|ids: Seq<usize>|
        standard_ids(pool, situation, ids) && out == at_positions(pool, ids)
    &&& assured(pool, situation) ==> out.len() == 20
}

/// Question `i` may be picked for type `wanted`: its type matches ignoring
/// ASCII case, it is not in `set` yet, and its chapter is used fewer than
/// `cap` times.
pub open spec fn can_pick(pool: Seq<QuestionRecord>, set: Seq<usize>, wanted: Seq<char>, cap: int, i: int) -> bool {
    &&& 0 <= i < pool.len()
    &&& eq_ignore_case(pool[i].qtype@, wanted)
    &&& !set.contains(i as usize)
    &&& key_of(pool, i) is Some
    &&& uses_of(pool, set, key_of(pool, i).unwrap()) < cap
}

/// Question `i` may be picked for type `wanted` from a chapter that `set`
/// does not use yet.
pub open spec fn fresh_pick(pool: Seq<QuestionRecord>, set: Seq<usize>, wanted: Seq<char>, cap: int, i: int) -> bool {
    can_pick(pool, set, wanted, cap, i) && uses_of(pool, set, key_of(pool, i).unwrap()) == 0
}

/// The questions a pick chooses among: those from a new chapter when there
/// are any, otherwise every question that may be picked.
pub open spec fn candidate(pool: Seq<QuestionRecord>, set: Seq<usize>, wanted: Seq<char>, cap: int, i: int) -> bool {
    if exists|f: int| fresh_pick(pool, set, wanted, cap, f) {
        fresh_pick(pool, set, wanted, cap, i)
    } else {
        can_pick(pool, set, wanted, cap, i)
    }
}

/// No run of picks that starts from `set` can get stuck before the pattern
/// is filled: a question can be picked for the next position, and whichever
/// candidate is picked, the same holds after it.
pub open spec fn never_stuck(pool: Seq<QuestionRecord>, situation: bool, set: Seq<usize>, cap: int) -> bool
    decreases 20 - set.len(),
{
    if set.len() >= 20 {
        true
    } else {
        let t = standard_pattern(situation)[set.len() as int];
        &&& exists|i: int| can_pick(pool, set, t, cap, i)
        &&& forall|i: int|
            #[trigger] candidate(pool, set, t, cap, i) ==> never_stuck(
                pool,
                situation,
                set.push(i as usize),
                cap,
            )
    }
}

/// Positions `0..n`.
pub open spec fn positions(n: int) -> Seq<usize> {
    Seq::new(n as nat, |i: int| i as usize)
}

/// Question `j` is of type `t` (ignoring ASCII case) and lies in chapter `k`.
pub open spec fn typed_in(pool: Seq<QuestionRecord>, t: Seq<char>, k: Seq<char>) -> spec_fn(usize) -> bool {
    |j: usize|
        (j as int) < pool.len() && eq_ignore_case(pool[j as int].qtype@, t) && key_of(pool, j as int)
            == Some(k)
}

/// How many questions of type `t` in the chapter of question `i` come
/// before it in the pool.
pub open spec fn type_rank(pool: Seq<QuestionRecord>, t: Seq<char>, i: usize) -> nat {
    match key_of(pool, i as int) {
        Some(k) => positions(i as int).filter(typed_in(pool, t, k)).len(),
        None => 0,
    }
}

/// Question `i` counts toward the supply of type `t`: it is of that type,
/// has a chapter, and is among the first `cap` of its type in that chapter.
pub open spec fn supplied(pool: Seq<QuestionRecord>, t: Seq<char>, cap: int) -> spec_fn(usize) -> bool {
    |i: usize|
        (i as int) < pool.len() && eq_ignore_case(pool[i as int].qtype@, t) && key_of(
            pool,
            i as int,
        ) is Some && type_rank(pool, t, i) < cap
}

/// The supply of type `t` in `pool`: its questions with a chapter, at most
/// `cap` of them counted per chapter.
pub open spec fn supply(pool: Seq<QuestionRecord>, t: Seq<char>, cap: int) -> nat {
    positions(pool.len() as int).filter(supplied(pool, t, cap)).len()
}

/// A pool from which the picks of a standard set cannot run out: for each
/// position `p` of the pattern, the supply of that position's type, counted
/// with the chapter cap, exceeds `p`.
pub open spec fn ample(pool: Seq<QuestionRecord>, situation: bool) -> bool {
    forall|p: int|
        0 <= p < 20 ==> supply(pool, #[trigger] standard_pattern(situation)[p], max_appearances(pool))
            > p
}

/// Questions whose type is `t`, ignoring ASCII case.
pub open spec fn of_type(pool: Seq<QuestionRecord>, t: Seq<char>) -> spec_fn(usize) -> bool {
    |i: usize| eq_ignore_case(pool[i as int].qtype@, t)
}

/// Positions of the pattern whose type is `t`, ignoring ASCII case.
pub open spec fn pattern_is(situation: bool, t: Seq<char>) -> spec_fn(usize) -> bool {
    |k: usize| eq_ignore_case(standard_pattern(situation)[k as int], t)
}

/// How many positions before `p` in the pattern have the type of position
/// `p`: the questions of that type already picked when `p` is filled.
pub open spec fn earlier_same_type(situation: bool, p: int) -> nat {
    positions(p).filter(pattern_is(situation, standard_pattern(situation)[p])).len()
}

/// No chapter of the pool holds more questions than a set may take from it.
pub open spec fn chapters_within_cap(pool: Seq<QuestionRecord>) -> bool {
    forall|k: Seq<char>|
        #[trigger] positions(pool.len() as int).filter(in_chapter(pool, k)).len()
            <= max_appearances(pool)
}

/// A pool whose chapters never fill up, with more questions of each type
/// (counted with the chapter cap) than the positions of that type before
/// each position that needs one.
pub open spec fn snug(pool: Seq<QuestionRecord>, situation: bool) -> bool {
    &&& chapters_within_cap(pool)
    &&& forall|p: int|
        0 <= p < 20 ==> supply(pool, #[trigger] standard_pattern(situation)[p], max_appearances(pool))
            > earlier_same_type(situation, p)
}

/// A pool from which the picks of a standard set cannot run out: no run
/// of picks gets stuck, or one of the two counting conditions that make it
/// so holds.
pub open spec fn assured(pool: Seq<QuestionRecord>, situation: bool) -> bool {
    ||| ample(pool, situation)
    ||| snug(pool, situation)
    ||| never_stuck(pool, situation, Seq::empty(), max_appearances(pool))
}

/// Question `i` may still join `set`: it is not in it and its chapter is
/// used fewer than `cap` times.
pub open spec fn open_for(pool: Seq<QuestionRecord>, set: Seq<usize>, cap: int) -> spec_fn(usize) -> bool {
    |i: usize| !set.contains(i) && uses_of(pool, set, key_of(pool, i as int).unwrap()) < cap
}

proof fn lemma_positions_no_duplicates(n: int)
    requires
        0 <= n <= usize::MAX + 1,
    ensures
        positions(n).no_duplicates(),
{
    assert forall|a: int, b: int| 0 <= a < b < positions(n).len() implies positions(n)[a]
        != positions(n)[b] by {
        assert(positions(n)[a] == a as usize);
        assert(positions(n)[b] == b as usize);
    }
}

/// Within one chapter, the questions of type `t` that count toward the
/// supply are its first `cap` ones: at most `cap` of them.
proof fn lemma_supply_per_chapter(pool: Seq<QuestionRecord>, t: Seq<char>, cap: int, k: Seq<char>, n: int)
    requires
        pool.len() <= usize::MAX,
        0 <= n <= pool.len(),
        cap >= 0,
    ensures
        positions(n).filter(both(supplied(pool, t, cap), in_chapter(pool, k))).len() == if positions(
            n,
        ).filter(typed_in(pool, t, k)).len() < cap {
            positions(n).filter(typed_in(pool, t, k)).len() as int
        } else {
            cap
        },
    decreases n,
{
    let sk = both(supplied(pool, t, cap), in_chapter(pool, k));
    let tk = typed_in(pool, t, k);
    if n == 0 {
        reveal(Seq::filter);
        assert(positions(0) =~= Seq::<usize>::empty());
    } else {
        lemma_supply_per_chapter(pool, t, cap, k, n - 1);
        let x = (n - 1) as usize;
        assert(positions(n - 1).push(x) =~= positions(n));
        positions(n - 1).lemma_filter_push(x, sk);
        positions(n - 1).lemma_filter_push(x, tk);
        assert(x as int == n - 1);
        assert(positions(x as int) =~= positions(n - 1));
        if tk(x) {
            assert(type_rank(pool, t, x) == positions(n - 1).filter(tk).len());
        }
    }
}

/// Counting chapter by chapter: when no chapter holds more elements of `a`
/// than of `b`, and every element of `a` has a chapter, `a` is no longer
/// than `b`.
proof fn lemma_len_by_chapter(pool: Seq<QuestionRecord>, a: Seq<usize>, b: Seq<usize>)
    requires
        forall|i: int| 0 <= i < a.len() ==> key_of(pool, #[trigger] a[i] as int) is Some,
        forall|k: Seq<char>| #[trigger] a.filter(in_chapter(pool, k)).len() <= b.filter(
            in_chapter(pool, k),
        ).len(),
    ensures
        a.len() <= b.len(),
    decreases a.len(),
{
    if a.len() > 0 {
        let k0 = key_of(pool, a.last() as int).unwrap();
        let in0 = in_chapter(pool, k0);
        let out0 = neg(in0);
        let a2 = a.filter(out0);
        let b2 = b.filter(out0);
        lemma_filter_split(a, in0);
        lemma_filter_split(b, in0);
        a.lemma_filter_contains(in0, a.len() - 1);
        assert(a.filter(in0).len() > 0);
        assert forall|i: int| 0 <= i < a2.len() implies key_of(pool, #[trigger] a2[i] as int) is Some by {
            a.lemma_filter_pred(out0, i);
            assert(a2.contains(a2[i]));
            a.lemma_filter_contains_rev(out0, a2[i]);
        }
        assert forall|k: Seq<char>| #[trigger] a2.filter(in_chapter(pool, k)).len() <= b2.filter(
            in_chapter(pool, k),
        ).len() by {
            let ink = in_chapter(pool, k);
            lemma_filter_filter(a, out0, ink);
            lemma_filter_filter(b, out0, ink);
            if k == k0 {
                assert forall|i: int| 0 <= i < a.len() implies !both(out0, ink)(#[trigger] a[i]) by {}
                lemma_filter_none(a, both(out0, ink));
            } else {
                assert(both(out0, ink) =~= ink);
                assert(a.filter(ink).len() <= b.filter(ink).len());
            }
        }
        lemma_len_by_chapter(pool, a2, b2);
    }
}

/// The questions of a set filled by the pattern that have type `t` are as
/// many as the pattern's positions of that type so far.
proof fn lemma_type_count(pool: Seq<QuestionRecord>, set: Seq<usize>, situation: bool, t: Seq<char>)
    requires
        set.len() <= 20,
        forall|k: int|
            0 <= k < set.len() ==> eq_ignore_case(
                #[trigger] pool[set[k] as int].qtype@,
                standard_pattern(situation)[k],
            ),
    ensures
        set.filter(of_type(pool, t)).len() == positions(set.len() as int).filter(
            pattern_is(situation, t),
        ).len(),
    decreases set.len(),
{
    if set.len() == 0 {
        reveal(Seq::filter);
        assert(positions(0) =~= Seq::<usize>::empty());
    } else {
        let n = set.len() - 1;
        let init = set.drop_last();
        assert forall|k: int| 0 <= k < init.len() implies eq_ignore_case(
            #[trigger] pool[init[k] as int].qtype@,
            standard_pattern(situation)[k],
        ) by {
            assert(init[k] == set[k]);
        }
        lemma_type_count(pool, init, situation, t);
        assert(init.push(set.last()) =~= set);
        init.lemma_filter_push(set.last(), of_type(pool, t));
        assert(positions(n).push(n as usize) =~= positions(n + 1));
        positions(n).lemma_filter_push(n as usize, pattern_is(situation, t));
        assert(eq_ignore_case(pool[set[n] as int].qtype@, standard_pattern(situation)[n]));
    }
}

/// In a pool whose chapters hold at most `cap` questions, a chapter that a
/// set uses `cap` times holds only questions of the set.
proof fn lemma_full_chapter_in_set(pool: Seq<QuestionRecord>, set: Seq<usize>, cap: int, k: Seq<char>, x: usize)
    requires
        pool.len() <= usize::MAX,
        set.no_duplicates(),
        forall|j: int| 0 <= j < set.len() ==> #[trigger] set[j] < pool.len(),
        positions(pool.len() as int).filter(in_chapter(pool, k)).len() <= cap,
        uses_of(pool, set, k) >= cap,
        (x as int) < pool.len(),
        key_of(pool, x as int) == Some(k),
    ensures
        set.contains(x),
{
    broadcast use vstd::seq_lib::seq_to_set_is_finite;

    let n = pool.len() as int;
    let ink = in_chapter(pool, k);
    let a = set.filter(ink);
    let b = positions(n).filter(ink);
    if !set.contains(x) {
        lemma_filter_no_duplicates(set, ink);
        lemma_positions_no_duplicates(n);
        lemma_filter_no_duplicates(positions(n), ink);
        positions(n).lemma_filter_contains(ink, x as int);
        assert(positions(n)[x as int] == x);
        assert(b.contains(x));
        assert forall|y: usize| a.to_set().contains(y) implies b.to_set().remove(x).contains(y) by {
            assert(a.contains(y));
            let j = choose|j: int| 0 <= j < a.len() && a[j] == y;
            set.lemma_filter_pred(ink, j);
            set.lemma_filter_contains_rev(ink, y);
            let j2 = choose|j2: int| 0 <= j2 < set.len() && set[j2] == y;
            assert(y < pool.len());
            positions(n).lemma_filter_contains(ink, y as int);
            assert(positions(n)[y as int] == y);
        }
        a.unique_seq_to_set();
        b.unique_seq_to_set();
        assert(b.to_set().contains(x));
        vstd::set_lib::lemma_len_subset(a.to_set(), b.to_set().remove(x));
        assert(b.to_set().remove(x).len() == b.to_set().len() - 1);
    }
}

/// In a pool whose chapters hold at most `cap` questions, a supply of type
/// `t` larger than the questions of that type already in the set leaves one
/// to pick.
proof fn lemma_snug_gives_pick(pool: Seq<QuestionRecord>, set: Seq<usize>, t: Seq<char>, cap: int)
    requires
        pool.len() <= usize::MAX,
        cap >= 0,
        set.no_duplicates(),
        forall|j: int| 0 <= j < set.len() ==> #[trigger] set[j] < pool.len(),
        forall|k: Seq<char>|
            #[trigger] positions(pool.len() as int).filter(in_chapter(pool, k)).len() <= cap,
        supply(pool, t, cap) > set.filter(of_type(pool, t)).len(),
    ensures
        exists|i: int| can_pick(pool, set, t, cap, i),
{
    let n = pool.len() as int;
    let ps = positions(n);
    let sup = supplied(pool, t, cap);
    let cs = ps.filter(sup);
    let open = open_for(pool, set, cap);
    let u = cs.filter(neg(open));
    let a = cs.filter(open);
    let st = set.filter(of_type(pool, t));
    lemma_filter_split(cs, open);
    lemma_positions_no_duplicates(n);
    lemma_filter_no_duplicates(ps, sup);
    lemma_filter_no_duplicates(cs, neg(open));
    lemma_filter_no_duplicates(set, of_type(pool, t));
    assert forall|i: int| 0 <= i < u.len() implies key_of(pool, #[trigger] u[i] as int) is Some by {
        assert(u.contains(u[i]));
        cs.lemma_filter_contains_rev(neg(open), u[i]);
        let j = choose|j: int| 0 <= j < cs.len() && cs[j] == u[i];
        ps.lemma_filter_pred(sup, j);
    }
    assert forall|k: Seq<char>| #[trigger] u.filter(in_chapter(pool, k)).len() <= st.filter(
        in_chapter(pool, k),
    ).len() by {
        let ink = in_chapter(pool, k);
        lemma_filter_no_duplicates(u, ink);
        lemma_filter_no_duplicates(st, ink);
        assert forall|x: usize| u.filter(ink).contains(x) implies st.filter(ink).contains(x) by {
            let j = choose|j: int| 0 <= j < u.filter(ink).len() && u.filter(ink)[j] == x;
            u.lemma_filter_pred(ink, j);
            u.lemma_filter_contains_rev(ink, x);
            let j2 = choose|j2: int| 0 <= j2 < u.len() && u[j2] == x;
            cs.lemma_filter_pred(neg(open), j2);
            assert(u.contains(x));
            cs.lemma_filter_contains_rev(neg(open), x);
            let j3 = choose|j3: int| 0 <= j3 < cs.len() && cs[j3] == x;
            ps.lemma_filter_pred(sup, j3);
            if !set.contains(x) {
                lemma_full_chapter_in_set(pool, set, cap, k, x);
            }
            let j4 = choose|j4: int| 0 <= j4 < set.len() && set[j4] == x;
            set.lemma_filter_contains(of_type(pool, t), j4);
            assert(st.contains(x));
            let j5 = choose|j5: int| 0 <= j5 < st.len() && st[j5] == x;
            st.lemma_filter_contains(ink, j5);
        }
        lemma_len_by_inclusion(u.filter(ink), st.filter(ink));
    }
    lemma_len_by_chapter(pool, u, st);
    assert(a.len() > 0);
    let x = a[0];
    cs.lemma_filter_pred(open, 0);
    assert(a.contains(x));
    cs.lemma_filter_contains_rev(open, x);
    let j = choose|j: int| 0 <= j < cs.len() && cs[j] == x;
    ps.lemma_filter_pred(sup, j);
    assert(can_pick(pool, set, t, cap, x as int));
}

/// With a supply of type `t` larger than the set, some question of type `t`
/// can still be picked for it.
proof fn lemma_supply_gives_pick(pool: Seq<QuestionRecord>, set: Seq<usize>, t: Seq<char>, cap: int)
    requires
        pool.len() <= usize::MAX,
        cap >= 0,
        set.no_duplicates(),
        supply(pool, t, cap) > set.len(),
    ensures
        exists|i: int| can_pick(pool, set, t, cap, i),
{
    let n = pool.len() as int;
    let ps = positions(n);
    let sup = supplied(pool, t, cap);
    let cs = ps.filter(sup);
    let open = open_for(pool, set, cap);
    let u = cs.filter(neg(open));
    let a = cs.filter(open);
    lemma_filter_split(cs, open);
    lemma_positions_no_duplicates(n);
    lemma_filter_no_duplicates(ps, sup);
    assert forall|i: int| 0 <= i < u.len() implies key_of(pool, #[trigger] u[i] as int) is Some by {
        assert(u.contains(u[i]));
        cs.lemma_filter_contains_rev(neg(open), u[i]);
        let j = choose|j: int| 0 <= j < cs.len() && cs[j] == u[i];
        ps.lemma_filter_pred(sup, j);
    }
    assert forall|k: Seq<char>| #[trigger] u.filter(in_chapter(pool, k)).len() <= set.filter(
        in_chapter(pool, k),
    ).len() by {
        let ink = in_chapter(pool, k);
        if uses_of(pool, set, k) >= cap {
            lemma_filter_filter(cs, neg(open), ink);
            lemma_filter_filter(cs, ink, neg(open));
            assert(both(neg(open), ink) =~= both(ink, neg(open)));
            cs.filter(ink).lemma_filter_len(neg(open));
            lemma_filter_filter(ps, sup, ink);
            lemma_supply_per_chapter(pool, t, cap, k, n);
        } else {
            lemma_filter_no_duplicates(cs, neg(open));
            lemma_filter_no_duplicates(u, ink);
            lemma_filter_no_duplicates(set, ink);
            assert forall|x: usize| u.filter(ink).contains(x) implies set.filter(ink).contains(x) by {
                let j = choose|j: int| 0 <= j < u.filter(ink).len() && u.filter(ink)[j] == x;
                u.lemma_filter_pred(ink, j);
                u.lemma_filter_contains_rev(ink, x);
                let j2 = choose|j2: int| 0 <= j2 < u.len() && u[j2] == x;
                cs.lemma_filter_pred(neg(open), j2);
                assert(set.contains(x));
                let j3 = choose|j3: int| 0 <= j3 < set.len() && set[j3] == x;
                set.lemma_filter_contains(ink, j3);
            }
            lemma_len_by_inclusion(u.filter(ink), set.filter(ink));
        }
    }
    lemma_len_by_chapter(pool, u, set);
    assert(a.len() > 0);
    let x = a[0];
    cs.lemma_filter_pred(open, 0);
    assert(a.contains(x));
    cs.lemma_filter_contains_rev(open, x);
    let j = choose|j: int| 0 <= j < cs.len() && cs[j] == x;
    ps.lemma_filter_pred(sup, j);
    assert(can_pick(pool, set, t, cap, x as int));
}

pub open spec fn keys_match(pool: Seq<QuestionRecord>, keys: Seq<Option<String>>) -> bool {
    &&& keys.len() == pool.len()
    &&& forall|i: int|
        0 <= i < pool.len() ==> match #[trigger] keys[i] {
            Some(k) => key_of(pool, i) == Some(k@),
            None => key_of(pool, i) is None,
        }
}

fn chapter_keys(pool: &[QuestionRecord]) -> (keys: Vec<Option<String>>)
    ensures
        keys_match(pool@, keys@),
{
    let mut keys: Vec<Option<String>> = Vec::new();
    let mut i: usize = 0;
    while i < pool.len()
        invariant
            i <= pool@.len(),
            keys@.len() == i,
            forall|j: int|
                0 <= j < i ==> match #[trigger] keys@[j] {
                    Some(k) => key_of(pool@, j) == Some(k@),
                    None => key_of(pool@, j) is None,
                },
        decreases pool@.len() - i,
    {
        keys.push(chapter_key(pool[i].reference.as_str()));
        i = i + 1;
    }
    keys
}

/// `max_appearances` of the pool whose keys are `keys`.
fn appearance_cap(pool: &[QuestionRecord], keys: &Vec<Option<String>>) -> (cap: usize)
    requires
        keys_match(pool@, keys@),
    ensures
        cap == max_appearances(pool@),
{
    let mut distinct: Vec<String> = Vec::new();
    let mut i: usize = 0;
    while i < keys.len()
        invariant
            i <= keys@.len(),
            keys_match(pool@, keys@),
            texts(distinct@) == distinct_in_order(key_list(pool@.take(i as int))),
        decreases keys@.len() - i,
    {
        let ghost before = distinct@;
        proof {
            let t = pool@.take(i + 1);
            assert(t.drop_last() =~= pool@.take(i as int));
            assert(t.last() == pool@[i as int]);
        }
        match &keys[i] {
            None => {},
            Some(k) => {
                let present = contains_text(&distinct, k);
                proof {
                    let l = key_list(pool@.take(i as int));
                    assert(key_list(pool@.take(i + 1)) == l.push(k@));
                    assert(l.push(k@).drop_last() =~= l);
                }
                if !present {
                    distinct.push(k.clone());
                    proof {
                        assert(texts(distinct@) =~= texts(before).push(k@));
                    }
                }
            },
        }
        i = i + 1;
    }
    assert(pool@.take(keys@.len() as int) =~= pool@);
    let c = if distinct.len() == 0 {
        1
    } else {
        distinct.len()
    };
    let q = if c >= 20 {
        1
    } else {
        (20 + c - 1) / c
    };
    proof {
        if c >= 20 {
            assert((20 + c - 1) / (c as int) == 1) by (nonlinear_arith)
                requires
                    c >= 20,
            ;
        }
    }
    if q < 2 {
        2
    } else {
        q
    }
}

/// How many questions at `set` have chapter `key`.
fn count_uses(pool: &[QuestionRecord], keys: &Vec<Option<String>>, set: &Vec<usize>, key: &String) -> (r: usize)
    requires
        keys_match(pool@, keys@),
        forall|k: int| 0 <= k < set@.len() ==> #[trigger] set@[k] < pool@.len(),
    ensures
        r == uses_of(pool@, set@, key@),
{
    let ghost p = in_chapter(pool@, key@);
    let mut n: usize = 0;
    let mut k: usize = 0;
    while k < set.len()
        invariant
            k <= set@.len(),
            keys_match(pool@, keys@),
            forall|x: int| 0 <= x < set@.len() ==> #[trigger] set@[x] < pool@.len(),
            p == in_chapter(pool@, key@),
            n == set@.take(k as int).filter(p).len(),
            n <= k,
        decreases set@.len() - k,
    {
        proof {
            assert(set@.take(k + 1) =~= set@.take(k as int).push(set@[k as int]));
            set@.take(k as int).lemma_filter_push(set@[k as int], p);
        }
        let at = set[k];
        let hit = match &keys[at] {
            Some(x) => *x == *key,
            None => false,
        };
        if hit {
            n = n + 1;
        }
        k = k + 1;
    }
    assert(set@.take(set@.len() as int) =~= set@);
    n
}

fn holds(set: &Vec<usize>, i: usize) -> (r: bool)
    ensures
        r == set@.contains(i),
{
    let mut k: usize = 0;
    while k < set.len()
        invariant
            k <= set@.len(),
            forall|x: int| 0 <= x < k ==> set@[x] != i,
        decreases set@.len() - k,
    {
        if set[k] == i {
            return true;
        }
        k = k + 1;
    }
    false
}

/// Picks at random a question of type `wanted` for `set`, preferring one from
/// a chapter that `set` does not use yet.
fn pick(
    pool: &[QuestionRecord],
    keys: &Vec<Option<String>>,
    set: &Vec<usize>,
    wanted: &str,
    cap: usize,
    rng: &mut Draws,
) -> (r: Option<usize>)
    requires
        keys_match(pool@, keys@),
        forall|k: int| 0 <= k < set@.len() ==> #[trigger] set@[k] < pool@.len(),
    ensures
        r matches Some(i) ==> can_pick(pool@, set@, wanted@, cap as int, i as int),
        r matches Some(i) ==> candidate(pool@, set@, wanted@, cap as int, i as int),
        r is None ==> forall|i: int| !can_pick(pool@, set@, wanted@, cap as int, i),
        final(rng).seed() == old(rng).seed(),
        final(rng).history() == old(rng).history().push(
            (0u8, pick_list(pool@, set@, wanted@, cap as int).len()),
        ),
        old(rng).seed() matches Some(s) ==> r == chosen_from(
            s,
            old(rng).history(),
            pick_list(pool@, set@, wanted@, cap as int),
        ),
{
    let ghost ap = pickable(pool@, set@, wanted@, cap as int);
    let ghost fp = fresh_pickable(pool@, set@, wanted@, cap as int);
    let mut fresh: Vec<usize> = Vec::new();
    let mut any: Vec<usize> = Vec::new();
    let mut i: usize = 0;
    proof {
        reveal(Seq::filter);
        assert(positions(0) =~= Seq::<usize>::empty());
    }
    while i < pool.len()
        invariant
            i <= pool@.len(),
            ap == pickable(pool@, set@, wanted@, cap as int),
            fp == fresh_pickable(pool@, set@, wanted@, cap as int),
            any@ == positions(i as int).filter(ap),
            fresh@ == positions(i as int).filter(fp),
            keys_match(pool@, keys@),
            forall|k: int| 0 <= k < set@.len() ==> #[trigger] set@[k] < pool@.len(),
            forall|k: int|
                0 <= k < fresh@.len() ==> can_pick(pool@, set@, wanted@, cap as int, #[trigger] fresh@[k] as int),
            forall|k: int|
                0 <= k < any@.len() ==> can_pick(pool@, set@, wanted@, cap as int, #[trigger] any@[k] as int),
            forall|j: int|
                0 <= j < i && #[trigger] can_pick(pool@, set@, wanted@, cap as int, j) ==> any@.contains(
                    j as usize,
                ),
            forall|k: int|
                0 <= k < fresh@.len() ==> fresh_pick(pool@, set@, wanted@, cap as int, #[trigger] fresh@[k] as int),
            forall|j: int|
                0 <= j < i && #[trigger] fresh_pick(pool@, set@, wanted@, cap as int, j) ==> fresh@.contains(
                    j as usize,
                ),
            fresh@.len() > 0 ==> any@.len() > 0,
        decreases pool@.len() - i,
    {
        proof {
            assert(positions(i as int).push(i) =~= positions(i + 1));
            positions(i as int).lemma_filter_push(i, ap);
            positions(i as int).lemma_filter_push(i, fp);
        }
        let ghost before = any@;
        let ghost before_fresh = fresh@;
        if text_eq_ignore_case(pool[i].qtype.as_str(), wanted) && !holds(set, i) {
            match &keys[i] {
                None => {},
                Some(key) => {
                    let used = count_uses(pool, keys, set, key);
                    if used < cap {
                        any.push(i);
                        if used == 0 {
                            fresh.push(i);
                        }
                    }
                },
            }
        }
        proof {
            assert forall|j: int|
                0 <= j < i + 1 && #[trigger] can_pick(pool@, set@, wanted@, cap as int, j) implies any@.contains(
                j as usize,
            ) by {
                if j < i {
                    let w = choose|w: int| 0 <= w < before.len() && before[w] == j as usize;
                    assert(any@[w] == before[w]);
                } else {
                    assert(any@.last() == i);
                }
            }
            assert forall|j: int|
                0 <= j < i + 1 && #[trigger] fresh_pick(pool@, set@, wanted@, cap as int, j) implies fresh@.contains(
                j as usize,
            ) by {
                if j < i {
                    let w = choose|w: int| 0 <= w < before_fresh.len() && before_fresh[w] == j as usize;
                    assert(fresh@[w] == before_fresh[w]);
                } else {
                    assert(fresh@.last() == i);
                }
            }
            assert(any@ == if ap(i) { before.push(i) } else { before });
            assert(fresh@ == if fp(i) { before_fresh.push(i) } else { before_fresh });
        }
        i = i + 1;
    }
    assert(positions(pool@.len() as int) =~= positions(i as int));
    if fresh.len() > 0 {
        rng.choose_one(&fresh)
    } else {
        proof {
            assert(fresh@.len() == 0);
        }
        rng.choose_one(&any)
    }
}

/// The type that position `p` of a standard set starts with.
fn pattern_type(situation: bool, p: usize) -> (r: &'static str)
    requires
        p < 20,
    ensures
        r@ == standard_pattern(situation)[p as int],
{
    if p == 0 {
        if situation {
            "Situation"
        } else {
            "In-What-Book-and-Chapter"
        }
    } else if p == 1 {
        "Quote"
    } else if p == 2 {
        "Reference"
    } else if p == 3 {
        "Verse"
    } else if p == 4 {
        "Context"
    } else if p < 9 {
        "According-To"
    } else {
        "General"
    }
}

proof fn lemma_perm_spread(pool: Seq<QuestionRecord>, a: Seq<usize>, b: Seq<usize>, cap: int)
    requires
        a.to_multiset() == b.to_multiset(),
        spread_ok(pool, a, cap),
    ensures
        spread_ok(pool, b, cap),
        b.len() == a.len(),
{
    broadcast use vstd::seq_lib::group_to_multiset_ensures;
    lemma_perm_no_duplicates(a, b);
    assert forall|k: int| 0 <= k < b.len() implies #[trigger] b[k] < pool.len() && key_of(pool, b[k] as int) is Some by {
        lemma_perm_contains(a, b, b[k]);
        let j = choose|j: int| 0 <= j < a.len() && a[j] == b[k];
        assert(a[j] < pool.len());
    }
    assert forall|c: Seq<char>| #[trigger] uses_of(pool, b, c) <= cap by {
        lemma_filter_len_perm(a, b, in_chapter(pool, c));
        assert(uses_of(pool, a, c) <= cap);
    }
    assert(a.len() == a.to_multiset().len());
    assert(b.len() == b.to_multiset().len());
}


/// Question `i` may replace question `old` of `set`: same type ignoring
/// ASCII case, not in `set`, and its chapter stays within `cap` once `old`
/// leaves.
pub open spec fn can_replace(pool: Seq<QuestionRecord>, set: Seq<usize>, old: int, cap: int, i: int) -> bool {
    &&& 0 <= i < pool.len()
    &&& eq_ignore_case(pool[i].qtype@, pool[old].qtype@)
    &&& !set.contains(i as usize)
    &&& key_of(pool, i) is Some
    &&& uses_of(pool, set, key_of(pool, i).unwrap()) - (if key_of(pool, old) == key_of(pool, i) {
        1int
    } else {
        0int
    }) < cap
}

/// The questions that may replace the one at `old` in `set`.
pub open spec fn replaceable(pool: Seq<QuestionRecord>, set: Seq<usize>, old: int, cap: int) -> spec_fn(usize) -> bool {
    |i: usize| can_replace(pool, set, old, cap, i as int)
}

/// The positions of `pool`, in order, whose question may replace the one at
/// `old` in `set`.
fn replacements(
    pool: &[QuestionRecord],
    keys: &Vec<Option<String>>,
    set: &Vec<usize>,
    old: usize,
    cap: usize,
) -> (r: Vec<usize>)
    requires
        keys_match(pool@, keys@),
        old < pool@.len(),
        set@.contains(old),
        forall|k: int| 0 <= k < set@.len() ==> #[trigger] set@[k] < pool@.len(),
    ensures
        r@ == positions(pool@.len() as int).filter(replaceable(pool@, set@, old as int, cap as int)),
        forall|k: int| 0 <= k < r@.len() ==> can_replace(pool@, set@, old as int, cap as int, #[trigger] r@[k] as int),
{
    let ghost pred = replaceable(pool@, set@, old as int, cap as int);
    let mut out: Vec<usize> = Vec::new();
    let mut i: usize = 0;
    proof {
        reveal(Seq::filter);
        assert(positions(0) =~= Seq::<usize>::empty());
    }
    while i < pool.len()
        invariant
            i <= pool@.len(),
            pred == replaceable(pool@, set@, old as int, cap as int),
            out@ == positions(i as int).filter(pred),
            keys_match(pool@, keys@),
            old < pool@.len(),
            set@.contains(old),
            forall|k: int| 0 <= k < set@.len() ==> #[trigger] set@[k] < pool@.len(),
            forall|k: int|
                0 <= k < out@.len() ==> can_replace(pool@, set@, old as int, cap as int, #[trigger] out@[k] as int),
        decreases pool@.len() - i,
    {
        proof {
            assert(positions(i as int).push(i) =~= positions(i + 1));
            positions(i as int).lemma_filter_push(i, pred);
        }
        let ghost before = out@;
        if text_eq_ignore_case(pool[i].qtype.as_str(), pool[old].qtype.as_str()) && !holds(set, i) {
            match &keys[i] {
                None => {},
                Some(key) => {
                    let mut used = count_uses(pool, keys, set, key);
                    let same = match &keys[old] {
                        Some(k0) => *k0 == *key,
                        None => false,
                    };
                    if same && used > 0 {
                        used = used - 1;
                    }
                    proof {
                        if same {
                            let p = in_chapter(pool@, key@);
                            let w = choose|w: int| 0 <= w < set@.len() && set@[w] == old;
                            set@.lemma_filter_contains(p, w);
                            set@.filter(p).lemma_filter_len(p);
                            assert(set@.filter(p).len() > 0);
                        }
                    }
                    if used < cap {
                        out.push(i);
                    }
                    proof {
                        assert(key_of(pool@, i as int) == Some(key@));
                        assert(same == (key_of(pool@, old as int) == key_of(pool@, i as int)));
                        assert((used < cap) == pred(i));
                    }
                },
            }
        }
        proof {
            assert(out@ == if pred(i) { before.push(i) } else { before });
        }
        i = i + 1;
    }
    assert(positions(pool@.len() as int) =~= positions(i as int));
    out
}

/// Question `i` may be picked: `can_pick` as a predicate on positions.
pub open spec fn pickable(pool: Seq<QuestionRecord>, set: Seq<usize>, wanted: Seq<char>, cap: int) -> spec_fn(usize) -> bool {
    |i: usize| can_pick(pool, set, wanted, cap, i as int)
}

/// Question `i` may be picked from a new chapter: `fresh_pick` as a
/// predicate on positions.
pub open spec fn fresh_pickable(pool: Seq<QuestionRecord>, set: Seq<usize>, wanted: Seq<char>, cap: int) -> spec_fn(usize) -> bool {
    |i: usize| fresh_pick(pool, set, wanted, cap, i as int)
}

/// The positions, in pool order, that a pick for `wanted` chooses among:
/// those from a chapter that `set` does not use yet when there are any,
/// otherwise all that may be picked.
pub open spec fn pick_list(pool: Seq<QuestionRecord>, set: Seq<usize>, wanted: Seq<char>, cap: int) -> Seq<usize> {
    let fresh = positions(pool.len() as int).filter(fresh_pickable(pool, set, wanted, cap));
    if fresh.len() > 0 {
        fresh
    } else {
        positions(pool.len() as int).filter(pickable(pool, set, wanted, cap))
    }
}

/// What a seeded source chooses from `list` after the draws of `history`:
/// nothing from an empty list.
pub open spec fn chosen_from(seed: u64, history: Seq<(u8, nat)>, list: Seq<usize>) -> Option<usize> {
    if list.len() == 0 {
        None
    } else {
        Some(list[seeded_choice(seed, usize::BITS, history, list.len()) as int])
    }
}

/// The first `n` picks of a standard set from a source seeded with `seed`
/// that has made the draws of `history`: the set picked and the draws made
/// by then, or `None` when one of the picks found no question.
pub open spec fn seeded_picks(
    pool: Seq<QuestionRecord>,
    situation: bool,
    seed: u64,
    history: Seq<(u8, nat)>,
    n: nat,
) -> Option<(Seq<usize>, Seq<(u8, nat)>)>
    decreases n,
{
    if n == 0 {
        Some((Seq::empty(), history))
    } else {
        match seeded_picks(pool, situation, seed, history, (n - 1) as nat) {
            None => None,
            Some((set, drawn)) => {
                let list = pick_list(
                    pool,
                    set,
                    standard_pattern(situation)[n - 1],
                    max_appearances(pool),
                );
                match chosen_from(seed, drawn, list) {
                    None => None,
                    Some(i) => Some((set.push(i), drawn.push((0u8, list.len())))),
                }
            },
        }
    }
}

/// One replacement round on `set` (after the draws of `drawn`): a random
/// fifth position is offered a replacement, chosen among all that may
/// replace its question; the set and the draws made after the round.
pub open spec fn seeded_round(
    pool: Seq<QuestionRecord>,
    seed: u64,
    set: Seq<usize>,
    drawn: Seq<(u8, nat)>,
) -> (Seq<usize>, Seq<(u8, nat)>) {
    let slot = (4 + 5 * seeded_below(seed, usize::BITS, drawn, 4)) as int;
    let after_slot = drawn.push((2u8, 4nat));
    let options = positions(pool.len() as int).filter(
        replaceable(pool, set, set[slot] as int, max_appearances(pool)),
    );
    let after = after_slot.push((0u8, options.len()));
    match chosen_from(seed, after_slot, options) {
        None => (set, after),
        Some(i) => (set.update(slot, i), after),
    }
}

/// `n` replacement rounds.
pub open spec fn seeded_rounds(
    pool: Seq<QuestionRecord>,
    seed: u64,
    set: Seq<usize>,
    drawn: Seq<(u8, nat)>,
    n: nat,
) -> (Seq<usize>, Seq<(u8, nat)>)
    decreases n,
{
    if n == 0 {
        (set, drawn)
    } else {
        let (s1, d1) = seeded_rounds(pool, seed, set, drawn, (n - 1) as nat);
        seeded_round(pool, seed, s1, d1)
    }
}

/// The positions of the standard set that a source seeded with `seed`, with
/// the draws of `history` made, gives: twenty picks, a shuffle, four
/// replacement rounds and a last shuffle; none when a pick found no question.
pub open spec fn seeded_standard_ids(
    pool: Seq<QuestionRecord>,
    situation: bool,
    seed: u64,
    history: Seq<(u8, nat)>,
) -> Seq<usize> {
    match seeded_picks(pool, situation, seed, history, 20) {
        None => Seq::empty(),
        Some((set, drawn)) => {
            let (mixed, after) = seeded_rounds(
                pool,
                seed,
                seeded_shuffle(seed, usize::BITS, drawn, set),
                drawn.push((1u8, 20nat)),
                4,
            );
            seeded_shuffle(seed, usize::BITS, after, mixed)
        },
    }
}

/// The standard set that `generate_standard_set` gives for `seed`.
pub open spec fn seeded_standard_set(pool: Seq<QuestionRecord>, situation: bool, seed: u64) -> Seq<QuestionRecord> {
    at_positions(pool, seeded_standard_ids(pool, situation, seed, Seq::empty()))
}

proof fn lemma_picks_stay_failed(pool: Seq<QuestionRecord>, situation: bool, seed: u64, history: Seq<(u8, nat)>, k: nat, n: nat)
    requires
        k <= n,
        seeded_picks(pool, situation, seed, history, k) is None,
    ensures
        seeded_picks(pool, situation, seed, history, n) is None,
    decreases n - k,
{
    if k < n {
        lemma_picks_stay_failed(pool, situation, seed, history, k, (n - 1) as nat);
    }
}

/// The positions of a standard set of `pool`, or none when a pick finds no
/// question: the twenty questions are picked type by type (a new chapter
/// where possible), shuffled, four random fifth positions are each offered a
/// replacement of the same type, and the set is shuffled again.
#[verifier::rlimit(60)]
fn standard_indices(pool: &[QuestionRecord], situation: bool, rng: &mut Draws) -> (r: Vec<usize>)
    ensures
        r@.len() == 0 || standard_ids(pool@, situation, r@),
        assured(pool@, situation) ==> r@.len() == 20,
        old(rng).seed() matches Some(s) ==> r@ == seeded_standard_ids(pool@, situation, s, old(rng).history()),
{
    let ghost seed = rng.seed();
    let ghost start = rng.history();
    let keys = chapter_keys(pool);
    let cap = appearance_cap(pool, &keys);
    let total = pool.len();
    let mut set: Vec<usize> = Vec::new();
    let ghost unstuck = never_stuck(pool@, situation, Seq::empty(), cap as int);
    assert(set@ =~= Seq::<usize>::empty());
    while set.len() < 20
        invariant
            seed == old(rng).seed(),
            start == old(rng).history(),
            rng.seed() == seed,
            seed matches Some(s) ==> seeded_picks(pool@, situation, s, start, set@.len()) == Some(
                (set@, rng.history()),
            ),
            total == pool@.len(),
            unstuck == never_stuck(pool@, situation, Seq::empty(), max_appearances(pool@)),
            unstuck ==> never_stuck(pool@, situation, set@, cap as int),
            keys_match(pool@, keys@),
            cap == max_appearances(pool@),
            set@.len() <= 20,
            spread_ok(pool@, set@, cap as int),
            forall|k: int|
                0 <= k < set@.len() ==> eq_ignore_case(
                    #[trigger] pool@[set@[k] as int].qtype@,
                    standard_pattern(situation)[k],
                ),
        decreases 20 - set@.len(),
    {
        let wanted = pattern_type(situation, set.len());
        let ghost drawn = rng.history();
        match pick(pool, &keys, &set, wanted, cap, rng) {
            None => {
                proof {
                    if let Some(s) = seed {
                        assert(seeded_picks(pool@, situation, s, start, (set@.len() + 1) as nat) is None);
                        lemma_picks_stay_failed(pool@, situation, s, start, (set@.len() + 1) as nat, 20);
                        assert(seeded_standard_ids(pool@, situation, s, start) =~= Seq::<usize>::empty());
                    }
                    let p = set@.len() as int;
                    if ample(pool@, situation) {
                        assert(supply(pool@, standard_pattern(situation)[p], cap as int) > p);
                        lemma_supply_gives_pick(pool@, set@, wanted@, cap as int);
                    } else if snug(pool@, situation) {
                        assert(supply(pool@, standard_pattern(situation)[p], cap as int)
                            > earlier_same_type(situation, p));
                        lemma_type_count(pool@, set@, situation, wanted@);
                        lemma_snug_gives_pick(pool@, set@, wanted@, cap as int);
                    } else if unstuck {
                        assert(never_stuck(pool@, situation, set@, cap as int));
                    }
                }
                return Vec::new();
            },
            Some(i) => {
                let ghost before = set@;
                proof {
                    if unstuck {
                        assert(never_stuck(pool@, situation, before, cap as int));
                        assert(candidate(pool@, before, wanted@, cap as int, i as int));
                    }
                }
                set.push(i);
                proof {
                    assert(set@ == before.push(i));
                    if let Some(s) = seed {
                        assert(seeded_picks(pool@, situation, s, start, set@.len()) == Some(
                            (set@, rng.history()),
                        ));
                    }
                    assert forall|c: Seq<char>| #[trigger] uses_of(pool@, set@, c) <= cap by {
                        before.lemma_filter_push(i, in_chapter(pool@, c));
                        assert(uses_of(pool@, before, c) <= cap);
                        assert(set@.filter(in_chapter(pool@, c)).len() <= before.filter(in_chapter(pool@, c)).len() + 1);
                        if key_of(pool@, i as int) == Some(c) {
                            assert(uses_of(pool@, before, c) < cap);
                        } else {
                            assert(!in_chapter(pool@, c)(i));
                            assert(set@.filter(in_chapter(pool@, c)) == before.filter(in_chapter(pool@, c)));
                        }
                    }
                    assert forall|x: int, y: int| 0 <= x < y < set@.len() implies set@[x] != set@[y] by {
                        if y == set@.len() - 1 {
                            assert(before.contains(set@[x]));
                        }
                    }
                }
            },
        }
    }
    let ghost mut arranged = set@;
    let ghost before_shuffle = set@;
    let ghost picked_drawn = rng.history();
    rng.shuffle(&mut set);
    proof {
        lemma_perm_spread(pool@, before_shuffle, set@, cap as int);
    }
    let ghost mixed_from = set@;
    let ghost mixed_drawn = rng.history();
    let mut round: usize = 0;
    while round < 4
        invariant
            rng.seed() == seed,
            seed matches Some(s) ==> seeded_picks(pool@, situation, s, start, 20) == Some(
                (before_shuffle, picked_drawn),
            ),
            seed matches Some(s) ==> mixed_from == seeded_shuffle(s, usize::BITS, picked_drawn, before_shuffle),
            mixed_drawn == picked_drawn.push((1u8, 20nat)),
            seed matches Some(s) ==> seeded_rounds(pool@, s, mixed_from, mixed_drawn, round as nat) == (
                set@,
                rng.history(),
            ),
            round <= 4,
            total == pool@.len(),
            keys_match(pool@, keys@),
            cap == max_appearances(pool@),
            set@.len() == 20,
            spread_ok(pool@, set@, cap as int),
            arranged.len() == 20,
            arranged.to_multiset() == set@.to_multiset(),
            forall|k: int|
                0 <= k < 20 ==> eq_ignore_case(
                    #[trigger] pool@[arranged[k] as int].qtype@,
                    standard_pattern(situation)[k],
                ),
        decreases 4 - round,
    {
        let ghost set_before = set@;
        let ghost drawn_before = rng.history();
        let slot = 4 + 5 * rng.below(4);
        let old = set[slot];
        proof {
            assert(set@.contains(old));
        }
        let options = replacements(pool, &keys, &set, old, cap);
        let ghost after_slot = rng.history();
        match rng.choose_one(&options) {
            None => {},
            Some(i) => {
                let ghost before = set@;
                proof {
                    let w = choose|w: int| 0 <= w < options@.len() && options@[w] == i;
                    assert(can_replace(pool@, before, old as int, cap as int, options@[w] as int));
                }
                set.set(slot, i);
                proof {
                    broadcast use vstd::seq_lib::group_to_multiset_ensures;
                    assert(set@ == before.update(slot as int, i));
                    assert forall|c: Seq<char>| #[trigger] uses_of(pool@, set@, c) <= cap by {
                        let pc = in_chapter(pool@, c);
                        lemma_filter_len_update(before, slot as int, i, pc);
                        assert(uses_of(pool@, before, c) <= cap);
                        assert(before[slot as int] == old);
                        assert(pc(old) == (key_of(pool@, old as int) == Some(c)));
                        assert(pc(i) == (key_of(pool@, i as int) == Some(c)));
                        if pc(i) {
                            assert(uses_of(pool@, before, c) - (if key_of(pool@, old as int) == Some(
                                c,
                            ) {
                                1int
                            } else {
                                0int
                            }) < cap);
                        }
                    }
                    assert forall|x: int, y: int| 0 <= x < y < set@.len() implies set@[x] != set@[y] by {
                        if x == slot {
                            assert(before.contains(set@[y]));
                        } else if y == slot {
                            assert(before.contains(set@[x]));
                        }
                    }
                    assert forall|k: int| 0 <= k < set@.len() implies #[trigger] set@[k] < pool@.len()
                        && key_of(pool@, set@[k] as int) is Some by {
                        if k != slot {
                            assert(set@[k] == before[k]);
                        }
                    }
                    assert(arranged.to_multiset().count(old) > 0);
                    assert(arranged.contains(old));
                    let p = choose|p: int| 0 <= p < arranged.len() && arranged[p] == old;
                    lemma_update_multiset(before, slot as int, i);
                    lemma_update_multiset(arranged, p, i);
                    let next = arranged.update(p, i);
                    assert forall|k: int| 0 <= k < 20 implies eq_ignore_case(
                        #[trigger] pool@[next[k] as int].qtype@,
                        standard_pattern(situation)[k],
                    ) by {
                        if k == p {
                            assert(eq_ignore_case(pool@[old as int].qtype@, standard_pattern(situation)[k]));
                        } else {
                            assert(next[k] == arranged[k]);
                        }
                    }
                    arranged = next;
                }
            },
        }
        proof {
            if let Some(s) = seed {
                assert(seeded_rounds(pool@, s, mixed_from, mixed_drawn, (round + 1) as nat) == seeded_round(
                    pool@,
                    s,
                    set_before,
                    drawn_before,
                ));
                assert(seeded_round(pool@, s, set_before, drawn_before) == (set@, rng.history()));
            }
        }
        round = round + 1;
    }
    let ghost before_last = set@;
    let ghost drawn_last = rng.history();
    rng.shuffle(&mut set);
    proof {
        if let Some(s) = seed {
            assert(seeded_rounds(pool@, s, mixed_from, mixed_drawn, 4) == (before_last, drawn_last));
            assert(set@ == seeded_shuffle(s, usize::BITS, drawn_last, before_last));
            assert(set@ == seeded_standard_ids(pool@, situation, s, start));
        }
        lemma_perm_spread(pool@, before_last, set@, cap as int);
        assert(arranged.to_multiset() == set@.to_multiset());
    }
    set
}

/// A standard twenty-question set from `pool`, or nothing when the pool
/// cannot supply one of the picks; seeded by `seed` when one is given.
pub fn generate_standard_set(pool: &[QuestionRecord], situation: bool, seed: Option<u64>) -> (r: Vec<
    QuestionRecord,
>)
    ensures
        standard_outcome(pool@, situation, r@),
        seed matches Some(s) ==> r@ == seeded_standard_set(pool@, situation, s),
        seed matches Some(s) ==> (seeded_picks(pool@, situation, s, Seq::empty(), 20) matches Some(
            (picked, drawn),
        ) ==> {
            let rounds = seeded_rounds(
                pool@,
                s,
                seeded_shuffle(s, usize::BITS, drawn, picked),
                drawn.push((1u8, 20nat)),
                4,
            );
            r@ == at_positions(pool@, seeded_shuffle(s, usize::BITS, rounds.1, rounds.0))
        }),
{
    let mut rng = make_rng(seed);
    let ids = standard_indices(pool, situation, &mut rng);
    let out = records_at(pool, &ids);
    proof {
        if let Some(s) = seed {
            seeded_standard_sets_are_shuffled(pool@, situation, s);
        }
    }
    out
}

/// The questions of `pool` at `ids`, in that order.
fn records_at(pool: &[QuestionRecord], ids: &Vec<usize>) -> (r: Vec<QuestionRecord>)
    requires
        forall|k: int| 0 <= k < ids@.len() ==> #[trigger] ids@[k] < pool@.len(),
    ensures
        r@ == at_positions(pool@, ids@),
{
    let mut out: Vec<QuestionRecord> = Vec::new();
    let mut k: usize = 0;
    while k < ids.len()
        invariant
            k <= ids@.len(),
            forall|x: int| 0 <= x < ids@.len() ==> #[trigger] ids@[x] < pool@.len(),
            out@ == at_positions(pool@, ids@.take(k as int)),
        decreases ids@.len() - k,
    {
        out.push(pool[ids[k]].clone());
        k = k + 1;
        proof {
            assert(out@ =~= at_positions(pool@, ids@.take(k as int)));
        }
    }
    assert(ids@.take(ids@.len() as int) =~= ids@);
    out
}


proof fn lemma_book_range_covers(pool: Seq<QuestionRecord>, j: int, b: Seq<char>, ch: i32)
    requires
        0 <= j < pool.len(),
        book_and_chapter(pool[j].reference@) == Some((b, ch)),
    ensures
        book_range(pool, b) matches Some((lo, hi)) && lo <= ch <= hi,
    decreases pool.len(),
{
    if j < pool.len() - 1 {
        let init = pool.drop_last();
        assert(init[j] == pool[j]);
        lemma_book_range_covers(init, j, b, ch);
    }
}

proof fn lemma_filter_range_at(filters: Seq<BookFilter>, i: int)
    requires
        0 <= i < filters.len(),
        forall|x: int, y: int| 0 <= x < y < filters.len() ==> filters[x].name@ != filters[y].name@,
    ensures
        filter_range(filters, filters[i].name@) == Some(
            (
                if filters[i].start_chapter <= filters[i].end_chapter {
                    filters[i].start_chapter
                } else {
                    filters[i].end_chapter
                },
                if filters[i].start_chapter <= filters[i].end_chapter {
                    filters[i].end_chapter
                } else {
                    filters[i].start_chapter
                },
            ),
        ),
    decreases filters.len(),
{
    if i < filters.len() - 1 {
        let init = filters.drop_last();
        assert(filters.last().name@ != filters[i].name@);
        assert(init[i] == filters[i]);
        lemma_filter_range_at(init, i);
    }
}

/// Filtering by every book that `list_books` reports, over its whole chapter
/// span, keeps every question whose reference parses: such a pool is given
/// back as it is (so `filter_by_books_cow` borrows it).
pub proof fn listed_books_select_the_whole_pool(
    pool: Seq<QuestionRecord>,
    books: Seq<BookMeta>,
    filters: Seq<BookFilter>,
)
    requires
        lists_books_of(pool, books),
        filters.len() == books.len(),
        forall|i: int|
            0 <= i < filters.len() ==> #[trigger] filters[i].name@ == books[i].name@
                && filters[i].start_chapter == books[i].min_chapter && filters[i].end_chapter
                == books[i].max_chapter,
        forall|j: int| 0 <= j < pool.len() ==> book_and_chapter(#[trigger] pool[j].reference@) is Some,
    ensures
        forall|j: int| 0 <= j < pool.len() ==> selected_by(filters, #[trigger] pool[j]),
        books_filtered(pool, filters) == pool,
{
    assert forall|x: int, y: int| 0 <= x < y < filters.len() implies filters[x].name@
        != filters[y].name@ by {
        assert(text_lt(books[x].name@, books[y].name@));
        assert(filters[x].name@ == books[x].name@);
        assert(filters[y].name@ == books[y].name@);
        lemma_text_lt_irreflexive(books[x].name@);
    }
    assert forall|j: int| 0 <= j < pool.len() implies selected_by(filters, #[trigger] pool[j]) by {
        let (b, ch) = book_and_chapter(pool[j].reference@).unwrap();
        lemma_book_range_covers(pool, j, b, ch);
        assert(book_range(pool, b) is Some);
        let i = choose|i: int| 0 <= i < books.len() && books[i].name@ == b;
        assert(book_range(pool, books[i].name@) == Some((books[i].min_chapter, books[i].max_chapter)));
        assert(filters[i].name@ == b);
        lemma_filter_range_at(filters, i);
    }
    if filters.len() > 0 {
        lemma_filter_keeps_all(pool, |q: QuestionRecord| selected_by(filters, q));
    } else if pool.len() > 0 {
        let (b, ch) = book_and_chapter(pool[0].reference@).unwrap();
        lemma_book_range_covers(pool, 0, b, ch);
    }
}

/// A standard set needs a question of every type of its pattern: when the
/// pool has no question (with a chapter) of one of them, the standard set
/// comes back empty.
pub proof fn standard_set_needs_each_type(
    pool: Seq<QuestionRecord>,
    situation: bool,
    out: Seq<QuestionRecord>,
    k: int,
)
    requires
        standard_outcome(pool, situation, out),
        0 <= k < 20,
        forall|i: int|
            0 <= i < pool.len() && key_of(pool, i) is Some ==> !eq_ignore_case(
                #[trigger] pool[i].qtype@,
                standard_pattern(situation)[k],
            ),
    ensures
        out.len() == 0,
{
    if out.len() != 0 {
        let ids = choose|ids: Seq<usize>|
            standard_ids(pool, situation, ids) && out == at_positions(pool, ids);
        let arranged = choose|arranged: Seq<usize>|
            #![trigger arranged.to_multiset()]
            arranged.to_multiset() == ids.to_multiset() && arranged.len() == 20 && forall|j: int|
                0 <= j < 20 ==> eq_ignore_case(
                    #[trigger] pool[arranged[j] as int].qtype@,
                    standard_pattern(situation)[j],
                );
        let x = arranged[k];
        assert(arranged.contains(x));
        lemma_perm_contains(arranged, ids, x);
        let j = choose|j: int| 0 <= j < ids.len() && ids[j] == x;
        assert(ids[j] < pool.len() && key_of(pool, ids[j] as int) is Some);
        assert(eq_ignore_case(pool[x as int].qtype@, standard_pattern(situation)[k]));
    }
}

/// A question fits the requested type: `"all"` takes every question, any
/// other type the questions of that type, ignoring ASCII case.
pub open spec fn type_selected(t: Seq<char>, q: QuestionRecord) -> bool {
    t == "all"@ || eq_ignore_case(q.qtype@, t)
}

/// The positions of `pool` whose question fits type `t`, in pool order.
pub open spec fn matching_positions(pool: Seq<QuestionRecord>, t: Seq<char>) -> Seq<usize> {
    Seq::new(pool.len(), |i: int| i as usize).filter(|i: usize| type_selected(t, pool[i as int]))
}

/// `out` is the first `count` (or all) of the questions that fit type `t`,
/// taken in some order.
pub open spec fn is_sample_of(pool: Seq<QuestionRecord>, t: Seq<char>, count: usize, out: Seq<QuestionRecord>) -> bool {
    exists|order: Seq<usize>|
        #![trigger order.to_multiset()]
        order.to_multiset() == matching_positions(pool, t).to_multiset() && out == at_positions(
            pool,
            order.take(if count < order.len() { count as int } else { order.len() as int }),
        )
}

/// What `generate_questions` gives for `req` from a source seeded with
/// `seed`: the seeded standard set, or the first `count` (or all) of the
/// matching questions in the order of the seeded shuffle.
pub open spec fn seeded_generation(pool: Seq<QuestionRecord>, req: GenerateRequest, seed: u64) -> Seq<QuestionRecord> {
    if eq_ignore_case(req.question_type@, "standard"@) {
        seeded_standard_set(
            pool,
            match req.situation {
                Some(b) => b,
                None => true,
            },
            seed,
        )
    } else {
        let found = matching_positions(pool, req.question_type@);
        let order = seeded_shuffle(seed, usize::BITS, Seq::empty(), found);
        at_positions(
            pool,
            order.take(if req.count < found.len() { req.count as int } else { found.len() as int }),
        )
    }
}

/// What `generate_questions` may give back for `req`: with a seed, exactly
/// the seeded generation.
pub open spec fn generated_for(pool: Seq<QuestionRecord>, req: GenerateRequest, out: Seq<QuestionRecord>) -> bool {
    &&& req.seed matches Some(s) ==> out == seeded_generation(pool, req, s)
    &&& if eq_ignore_case(req.question_type@, "standard"@) {
        standard_outcome(
            pool,
            match req.situation {
                Some(b) => b,
                None => true,
            },
            out,
        )
    } else {
        is_sample_of(pool, req.question_type@, req.count, out)
    }
}

/// Seeded generation repeats itself: two generations for the same request
/// with a seed, from the same pool, give the same questions in the same
/// order.
pub proof fn seeded_generation_repeats(
    pool: Seq<QuestionRecord>,
    req: GenerateRequest,
    first: Seq<QuestionRecord>,
    second: Seq<QuestionRecord>,
)
    requires
        req.seed is Some,
        generated_for(pool, req, first),
        generated_for(pool, req, second),
    ensures
        first == second,
{
}

/// Questions for `req`: a standard set when the type is `standard` (any
/// ASCII case; the opening question is a Situation unless `situation` is
/// `false`), otherwise up to `count` questions of the type (or of any type
/// for `all`) in random order; seeded by `seed` when one is given.
pub fn generate_questions(pool: &[QuestionRecord], req: &GenerateRequest) -> (r: Vec<QuestionRecord>)
    ensures
        generated_for(pool@, *req, r@),
{
    if text_eq_ignore_case(req.question_type.as_str(), "standard") {
        let situation = match req.situation {
            Some(b) => b,
            None => true,
        };
        return generate_standard_set(pool, situation, req.seed);
    }
    let all = "all".to_string();
    let every = req.question_type == all;
    let ghost pred = |i: usize| type_selected(req.question_type@, pool@[i as int]);
    let mut positions: Vec<usize> = Vec::new();
    let mut i: usize = 0;
    while i < pool.len()
        invariant
            i <= pool@.len(),
            every == (req.question_type@ == "all"@),
            pred == (|i: usize| type_selected(req.question_type@, pool@[i as int])),
            positions@ == Seq::new(i as nat, |x: int| x as usize).filter(pred),
            forall|k: int| 0 <= k < positions@.len() ==> #[trigger] positions@[k] < pool@.len(),
        decreases pool@.len() - i,
    {
        proof {
            assert(Seq::new((i + 1) as nat, |x: int| x as usize) =~= Seq::new(
                i as nat,
                |x: int| x as usize,
            ).push(i));
            Seq::new(i as nat, |x: int| x as usize).lemma_filter_push(i, pred);
        }
        if every || text_eq_ignore_case(pool[i].qtype.as_str(), req.question_type.as_str()) {
            positions.push(i);
        }
        i = i + 1;
    }
    assert(positions@ == matching_positions(pool@, req.question_type@));
    if positions.len() == 0 {
        let r: Vec<QuestionRecord> = Vec::new();
        proof {
            assert(at_positions(pool@, positions@.take(0)) =~= r@);
            assert(positions@.to_multiset() == matching_positions(pool@, req.question_type@).to_multiset());
            if let Some(sd) = req.seed {
                let order = seeded_shuffle(sd, usize::BITS, Seq::empty(), positions@);
                assert(at_positions(pool@, order.take(0)) =~= r@);
            }
        }
        return r;
    }
    let mut rng = make_rng(req.seed);
    let ghost found = positions@;
    rng.shuffle(&mut positions);
    let ghost order = positions@;
    proof {
        broadcast use vstd::seq_lib::group_to_multiset_ensures;
        assert(order.len() == order.to_multiset().len());
        assert(found.len() == found.to_multiset().len());
        assert forall|k: int| 0 <= k < order.len() implies #[trigger] order[k] < pool@.len() by {
            lemma_perm_contains(found, order, order[k]);
        }
    }
    let keep = if req.count < positions.len() {
        req.count
    } else {
        positions.len()
    };
    positions.truncate(keep);
    assert(positions@ == order.take(keep as int));
    proof {
        if let Some(sd) = req.seed {
            assert(order == seeded_shuffle(sd, usize::BITS, Seq::empty(), found));
            assert(order.len() == found.len());
        }
    }
    records_at(pool, &positions)
}

/// A seeded standard set is shuffled twice: its order is the seeded shuffle
/// of the set that the four replacement rounds leave, and those rounds start
/// from the seeded shuffle of the twenty picks, not from the picks in
/// pattern order. When a pick finds no question the set is empty.
pub proof fn seeded_standard_sets_are_shuffled(pool: Seq<QuestionRecord>, situation: bool, seed: u64)
    ensures
        seeded_picks(pool, situation, seed, Seq::empty(), 20) matches Some((picked, drawn)) ==> {
            let rounds = seeded_rounds(
                pool,
                seed,
                seeded_shuffle(seed, usize::BITS, drawn, picked),
                drawn.push((1u8, 20nat)),
                4,
            );
            seeded_standard_set(pool, situation, seed) == at_positions(
                pool,
                seeded_shuffle(seed, usize::BITS, rounds.1, rounds.0),
            )
        },
        seeded_picks(pool, situation, seed, Seq::empty(), 20) is None ==> seeded_standard_set(
            pool,
            situation,
            seed,
        ).len() == 0,
{
}

/// A standard request that leaves `situation` out is the standard request
/// with `situation` true: a set it gives holds a Situation question and no
/// In-What-Book-and-Chapter question.
pub proof fn standard_requests_open_with_a_situation(
    pool: Seq<QuestionRecord>,
    req: GenerateRequest,
    out: Seq<QuestionRecord>,
)
    requires
        eq_ignore_case(req.question_type@, "standard"@),
        req.situation is None,
        generated_for(pool, req, out),
    ensures
        standard_outcome(pool, true, out),
        req.seed matches Some(s) ==> out == seeded_standard_set(pool, true, s),
        out.len() > 0 ==> exists|j: int|
            0 <= j < out.len() && eq_ignore_case(#[trigger] out[j].qtype@, "Situation"@),
        forall|j: int|
            0 <= j < out.len() ==> !eq_ignore_case(#[trigger] out[j].qtype@, "In-What-Book-and-Chapter"@),
{
    reveal_strlit("Situation");
    reveal_strlit("Quote");
    reveal_strlit("Reference");
    reveal_strlit("Verse");
    reveal_strlit("Context");
    reveal_strlit("According-To");
    reveal_strlit("General");
    reveal_strlit("In-What-Book-and-Chapter");
    if out.len() > 0 {
        let ids = choose|ids: Seq<usize>| standard_ids(pool, true, ids) && out == at_positions(pool, ids);
        let arranged = choose|arranged: Seq<usize>|
            #![trigger arranged.to_multiset()]
            arranged.to_multiset() == ids.to_multiset() && arranged.len() == 20 && forall|k: int|
                0 <= k < 20 ==> eq_ignore_case(
                    #[trigger] pool[arranged[k] as int].qtype@,
                    standard_pattern(true)[k],
                );
        let first = arranged[0];
        assert(arranged.contains(first));
        lemma_perm_contains(arranged, ids, first);
        let j0 = choose|j: int| 0 <= j < ids.len() && ids[j] == first;
        assert(out[j0] == pool[first as int]);
        assert(eq_ignore_case(out[j0].qtype@, standard_pattern(true)[0]));
        assert forall|j: int| 0 <= j < out.len() implies !eq_ignore_case(
            #[trigger] out[j].qtype@,
            "In-What-Book-and-Chapter"@,
        ) by {
            let x = ids[j];
            assert(ids.contains(x));
            lemma_perm_contains(arranged, ids, x);
            let k = choose|k: int| 0 <= k < arranged.len() && arranged[k] == x;
            assert(out[j] == pool[x as int]);
            assert(eq_ignore_case(pool[x as int].qtype@, standard_pattern(true)[k]));
            assert(ascii_lower_text(pool[x as int].qtype@).len() == pool[x as int].qtype@.len());
            assert(ascii_lower_text(standard_pattern(true)[k]).len() == standard_pattern(true)[k].len());
            assert(ascii_lower_text("In-What-Book-and-Chapter"@).len() == 24);
            assert(standard_pattern(true)[k].len() != 24);
        }
    }
}

/// Every type that the generator lists is known, in any ASCII case, among
/// them each of the eight types of a question pool.
pub proof fn listed_types_are_known(t: Seq<char>)
    ensures
        (exists|i: int| 0 <= i < valid_types().len() && eq_ignore_case(t, #[trigger] valid_types()[i]))
            ==> is_known_type(t),
        forall|i: int| 0 <= i < valid_types().len() ==> is_known_type(#[trigger] valid_types()[i]),
        is_known_type("Situation"@),
        is_known_type("In-What-Book-and-Chapter"@),
        is_known_type("Quote"@),
        is_known_type("Reference"@),
        is_known_type("Verse"@),
        is_known_type("Context"@),
        is_known_type("According-To"@),
        is_known_type("General"@),
{
    assert forall|i: int| 0 <= i < valid_types().len() implies is_known_type(#[trigger] valid_types()[i]) by {
        assert(eq_ignore_case(valid_types()[i], valid_types()[i]));
    }
    assert(valid_types()[0] == "Situation"@);
    assert(valid_types()[1] == "In-What-Book-and-Chapter"@);
    assert(valid_types()[2] == "Quote"@);
    assert(valid_types()[3] == "Reference"@);
    assert(valid_types()[4] == "Verse"@);
    assert(valid_types()[5] == "Context"@);
    assert(valid_types()[6] == "According-To"@);
    assert(valid_types()[7] == "General"@);
}

/// A pool whose accepted questions all have listed types (in any ASCII
/// case) draws no unknown-type warning.
pub proof fn listed_types_draw_no_warning(idx: ColumnIndexes, rows: Seq<Option<Seq<Seq<char>>>>)
    requires
        forall|k: int|
            0 <= k < accepted_types(idx, rows).len() ==> exists|i: int|
                0 <= i < valid_types().len() && eq_ignore_case(
                    #[trigger] accepted_types(idx, rows)[k],
                    valid_types()[i],
                ),
    ensures
        unknown_types(idx, rows).len() == 0,
{
    let s = accepted_types(idx, rows);
    let p = |t: Seq<char>| !is_known_type(t);
    assert forall|k: int| 0 <= k < s.len() implies !p(#[trigger] s[k]) by {
        listed_types_are_known(s[k]);
    }
    lemma_filter_none(s, p);
    assert(s.filter(p) =~= Seq::<Seq<char>>::empty());
}

} // verus!
