//! The extension-to-mime-type table read from a `mime.types`-style file.
//!
//! Each line holds a mime type followed by the extensions it applies to,
//! separated by white space. A line whose first word starts with `#` is a
//! comment. When an extension is listed more than once, the last listing
//! wins.

use vstd::prelude::*;
use crate::text::{chars_of, is_white, is_whitespace};

verus! {

// ---------------------------------------------------------------------------
// Words of a line
// ---------------------------------------------------------------------------

/// One character of the left-to-right scan of a line into words: white
/// space completes the word being read, any other character extends it.
pub open spec fn word_step(st: (Seq<Seq<char>>, Seq<char>), c: char) -> (Seq<Seq<char>>, Seq<char>) {
    if is_white(c) {
        if st.1.len() > 0 {
            (st.0.push(st.1), seq![])
        } else {
            st
        }
    } else {
        (st.0, st.1.push(c))
    }
}

/// The scan of `s` into words: the completed words and the word being read.
pub open spec fn word_scan(s: Seq<char>) -> (Seq<Seq<char>>, Seq<char>)
    decreases s.len(),
{
    if s.len() == 0 {
        (seq![], seq![])
    } else {
        word_step(word_scan(s.drop_last()), s.last())
    }
}

/// The words of `s`: its maximal runs of non-white-space characters, in
/// order, as `str::split_whitespace` yields them.
pub open spec fn spec_words(s: Seq<char>) -> Seq<Seq<char>> {
    let (done, cur) = word_scan(s);
    if cur.len() > 0 {
        done.push(cur)
    } else {
        done
    }
}

/// The texts of a sequence of string slices.
pub open spec fn texts(v: Seq<&str>) -> Seq<Seq<char>> {
    v.map_values(|s: &str| s@)
}

/// Every word is nonempty and holds no white space.
pub open spec fn words_wf(ws: Seq<Seq<char>>) -> bool {
    forall|i: int|
        0 <= i < ws.len() ==> #[trigger] ws[i].len() > 0 && forall|j: int|
            0 <= j < ws[i].len() ==> !is_white(ws[i][j])
}

proof fn lemma_word_scan_wf(s: Seq<char>)
    ensures
        words_wf(word_scan(s).0),
        forall|j: int| 0 <= j < word_scan(s).1.len() ==> !is_white(word_scan(s).1[j]),
    decreases s.len(),
{
    if s.len() > 0 {
        lemma_word_scan_wf(s.drop_last());
        let (done, cur) = word_scan(s.drop_last());
        let c = s.last();
        if !is_white(c) {
            assert forall|j: int| 0 <= j < cur.push(c).len() implies !is_white(cur.push(c)[j]) by {
                if j < cur.len() {
                    assert(cur.push(c)[j] == cur[j]);
                }
            }
        } else if cur.len() > 0 {
            let d2 = done.push(cur);
            assert forall|i: int| 0 <= i < d2.len() implies #[trigger] d2[i].len() > 0
                && forall|j: int| 0 <= j < d2[i].len() ==> !is_white(d2[i][j]) by {
                if i < done.len() {
                    assert(d2[i] == done[i]);
                }
            }
        }
    }
}

/// The words of a line are nonempty and hold no white space.
pub proof fn lemma_words_wf(s: Seq<char>)
    ensures
        words_wf(spec_words(s)),
{
    lemma_word_scan_wf(s);
    let (done, cur) = word_scan(s);
    if cur.len() > 0 {
        let d2 = done.push(cur);
        assert forall|i: int| 0 <= i < d2.len() implies #[trigger] d2[i].len() > 0 && forall|j: int|
            0 <= j < d2[i].len() ==> !is_white(d2[i][j]) by {
            if i < done.len() {
                assert(d2[i] == done[i]);
            }
        }
    }
}

/// Splits `line` into its words, as `str::split_whitespace` does.
pub fn split_words(line: &str) -> (r: Vec<&str>)
    ensures
        texts(r@) == spec_words(line@),
        words_wf(texts(r@)),
{
    let cs = chars_of(line);
    let n = cs.len();
    let mut words: Vec<&str> = Vec::new();
    let mut start: usize = 0;
    let mut i: usize = 0;
    while i < n
        invariant
            cs@ == line@,
            n == cs@.len(),
            start <= i <= n,
            texts(words@) == word_scan(cs@.take(i as int)).0,
            cs@.subrange(start as int, i as int) == word_scan(cs@.take(i as int)).1,
        decreases n - i,
    {
        assert(cs@.take(i + 1).drop_last() =~= cs@.take(i as int));
        assert(cs@.take(i + 1).last() == cs@[i as int]);
        if is_whitespace(cs[i]) {
            if start < i {
                let ghost before = words@;
                words.push(line.substring_char(start, i));
                assert(texts(words@) =~= texts(before).push(cs@.subrange(start as int, i as int)));
            }
            start = i + 1;
            assert(cs@.subrange(start as int, (i + 1) as int) =~= Seq::<char>::empty());
        } else {
            assert(cs@.subrange(start as int, (i + 1) as int) =~= cs@.subrange(
                start as int,
                i as int,
            ).push(cs@[i as int]));
        }
        i = i + 1;
    }
    assert(cs@.take(n as int) =~= cs@);
    if start < n {
        let ghost before = words@;
        words.push(line.substring_char(start, n));
        assert(texts(words@) =~= texts(before).push(cs@.subrange(start as int, n as int)));
    }
    proof {
        lemma_words_wf(line@);
    }
    words
}

// ---------------------------------------------------------------------------
// Lines and the table they make
// ---------------------------------------------------------------------------

/// Whether a line is a comment: its first word starts with `#`.
pub open spec fn is_comment(words: Seq<Seq<char>>) -> bool {
    words.len() > 0 && words[0].len() > 0 && words[0][0] == '#'
}

/// The (extension, mime type) pairs that one line defines, in order: each
/// word after the first is an extension of the mime type that the first
/// word names. Blank lines and comments define none.
pub open spec fn line_entries(line: Seq<char>) -> Seq<(Seq<char>, Seq<char>)> {
    let words = spec_words(line);
    if words.len() == 0 || is_comment(words) {
        seq![]
    } else {
        words.skip(1).map_values(|e: Seq<char>| (e, words[0]))
    }
}

/// The table `m` with the pairs of `es` inserted in order; a later pair
/// replaces an earlier one for the same extension.
pub open spec fn insert_all(
    m: Map<Seq<char>, Seq<char>>,
    es: Seq<(Seq<char>, Seq<char>)>,
) -> Map<Seq<char>, Seq<char>>
    decreases es.len(),
{
    if es.len() == 0 {
        m
    } else {
        insert_all(m, es.drop_last()).insert(es.last().0, es.last().1)
    }
}

/// The table that the lines of a `mime.types` file define.
pub open spec fn table_of_lines(lines: Seq<Seq<char>>) -> Map<Seq<char>, Seq<char>>
    decreases lines.len(),
{
    if lines.len() == 0 {
        Map::empty()
    } else {
        insert_all(table_of_lines(lines.drop_last()), line_entries(lines.last()))
    }
}

/// All the pairs that the lines define, in file order.
pub open spec fn all_entries(lines: Seq<Seq<char>>) -> Seq<(Seq<char>, Seq<char>)>
    decreases lines.len(),
{
    if lines.len() == 0 {
        seq![]
    } else {
        all_entries(lines.drop_last()) + line_entries(lines.last())
    }
}

// ---------------------------------------------------------------------------
// The table
// ---------------------------------------------------------------------------

/// A table from file extensions to mime types.
pub struct MimeDb {
    entries: Vec<(String, String)>,
    model: Ghost<Map<Seq<char>, Seq<char>>>,
}

impl View for MimeDb {
    type V = Map<Seq<char>, Seq<char>>;

    closed spec fn view(&self) -> Map<Seq<char>, Seq<char>> {
        self.model@
    }
}

/// The entries hold each extension once, and `model` maps exactly those
/// extensions to their mime types.
pub open spec fn entries_match(entries: Seq<(String, String)>, model: Map<Seq<char>, Seq<char>>) -> bool {
    &&& forall|i: int, j: int|
        0 <= i < j < entries.len() ==> #[trigger] entries[i].0@ != #[trigger] entries[j].0@
    &&& forall|k: Seq<char>|
        #[trigger] model.dom().contains(k) <==> exists|i: int|
            0 <= i < entries.len() && #[trigger] entries[i].0@ == k
    &&& forall|i: int| 0 <= i < entries.len() ==> model[#[trigger] entries[i].0@] == entries[i].1@
}

/// The index of the entry for `key`, if there is one.
fn find_key(entries: &Vec<(String, String)>, key: &String) -> (r: Option<usize>)
    ensures
        r matches Some(i) ==> i < entries@.len() && entries@[i as int].0@ == key@,
        r is None ==> forall|j: int| 0 <= j < entries@.len() ==> entries@[j].0@ != key@,
{
    let mut i: usize = 0;
    while i < entries.len()
        invariant
            i <= entries@.len(),
            forall|j: int| 0 <= j < i ==> entries@[j].0@ != key@,
        decreases entries@.len() - i,
    {
        if entries[i].0 == *key {
            return Some(i);
        }
        i = i + 1;
    }
    None
}

impl MimeDb {
    #[verifier::type_invariant]
    spec fn inv(&self) -> bool {
        entries_match(self.entries@, self.model@)
    }

    /// An empty table.
    pub fn new() -> (r: MimeDb)
        ensures
            r@ == Map::<Seq<char>, Seq<char>>::empty(),
    {
        MimeDb { entries: Vec::new(), model: Ghost(Map::empty()) }
    }

    /// The number of extensions in the table.
    pub fn len(&self) -> (r: usize)
        ensures
            r == self@.dom().len(),
            self@.dom().finite(),
    {
        proof {
            use_type_invariant(self);
            lemma_dom_len(self.entries@, self.model@);
        }
        self.entries.len()
    }

    /// The mime type of `ext`, if the table has one.
    pub fn get(&self, ext: &str) -> (r: Option<&str>)
        ensures
            r is Some <==> self@.dom().contains(ext@),
            r matches Some(m) ==> m@ == self@[ext@],
    {
        proof {
            use_type_invariant(self);
        }
        let key = String::from_str(ext);
        match find_key(&self.entries, &key) {
            Some(i) => Some(self.entries[i].1.as_str()),
            None => {
                proof {
                    if self@.dom().contains(ext@) {
                        let j = choose|j: int| 0 <= j < self.entries@.len() && #[trigger] self.entries@[j].0@ == ext@;
                        assert(self.entries@[j].0@ != ext@);
                    }
                }
                None
            },
        }
    }

    /// Maps `ext` to `mime`, replacing what `ext` mapped to before.
    pub fn insert(&mut self, ext: String, mime: String)
        ensures
            final(self)@ == old(self)@.insert(ext@, mime@),
    {
        let mut taken = MimeDb::new();
        std::mem::swap(self, &mut taken);
        proof {
            use_type_invariant(&taken);
        }
        let MimeDb { mut entries, model } = taken;
        let ghost k = ext@;
        let ghost v = mime@;
        let ghost old_model = model@;
        let ghost old_entries = entries@;
        let ghost new_model = old_model.insert(k, v);
        match find_key(&entries, &ext) {
            Some(i) => {
                entries.set(i, (ext, mime));
                proof {
                    assert forall|a: int, b: int| 0 <= a < b < entries@.len() implies
                        #[trigger] entries@[a].0@ != #[trigger] entries@[b].0@ by {
                        assert(old_entries[a].0@ != old_entries[b].0@);
                    }
                    assert forall|kk: Seq<char>| #[trigger] new_model.dom().contains(kk) <==> exists|a: int|
                        0 <= a < entries@.len() && #[trigger] entries@[a].0@ == kk by {
                        if new_model.dom().contains(kk) && kk != k {
                            let a = choose|a: int| 0 <= a < old_entries.len() && #[trigger] old_entries[a].0@ == kk;
                            assert(entries@[a].0@ == kk);
                        }
                        if kk == k {
                            assert(entries@[i as int].0@ == kk);
                        }
                        if exists|a: int| 0 <= a < entries@.len() && #[trigger] entries@[a].0@ == kk {
                            let a = choose|a: int| 0 <= a < entries@.len() && #[trigger] entries@[a].0@ == kk;
                            if a != i {
                                assert(old_entries[a].0@ == kk);
                            }
                        }
                    }
                    assert forall|a: int| 0 <= a < entries@.len() implies new_model[#[trigger] entries@[a].0@]
                        == entries@[a].1@ by {
                        if a != i {
                            assert(old_entries[a] == entries@[a]);
                            if a < i {
                                assert(old_entries[a].0@ != old_entries[i as int].0@);
                            } else {
                                assert(old_entries[i as int].0@ != old_entries[a].0@);
                            }
                        }
                    }
                }
            },
            None => {
                entries.push((ext, mime));
                proof {
                    let n = old_entries.len();
                    assert(entries@[n as int].0@ == k);
                    assert forall|a: int, b: int| 0 <= a < b < entries@.len() implies
                        #[trigger] entries@[a].0@ != #[trigger] entries@[b].0@ by {
                        if b == n {
                            assert(old_entries[a].0@ != k);
                        } else {
                            assert(old_entries[a].0@ != old_entries[b].0@);
                        }
                    }
                    assert forall|kk: Seq<char>| #[trigger] new_model.dom().contains(kk) <==> exists|a: int|
                        0 <= a < entries@.len() && #[trigger] entries@[a].0@ == kk by {
                        if new_model.dom().contains(kk) && kk != k {
                            let a = choose|a: int| 0 <= a < old_entries.len() && #[trigger] old_entries[a].0@ == kk;
                            assert(entries@[a].0@ == kk);
                        }
                        if exists|a: int| 0 <= a < entries@.len() && #[trigger] entries@[a].0@ == kk {
                            let a = choose|a: int| 0 <= a < entries@.len() && #[trigger] entries@[a].0@ == kk;
                            if a != n {
                                assert(old_entries[a].0@ == kk);
                            }
                        }
                    }
                    assert forall|a: int| 0 <= a < entries@.len() implies new_model[#[trigger] entries@[a].0@]
                        == entries@[a].1@ by {
                        if a != n {
                            assert(old_entries[a].0@ != k);
                            assert(old_entries[a] == entries@[a]);
                        }
                    }
                }
            },
        }
        *self = MimeDb { entries, model: Ghost(new_model) };
    }
}

proof fn lemma_dom_len(entries: Seq<(String, String)>, model: Map<Seq<char>, Seq<char>>)
    requires
        entries_match(entries, model),
    ensures
        model.dom().len() == entries.len(),
        model.dom().finite(),
{
    let keys = entries.map_values(|e: (String, String)| e.0@);
    assert(keys.no_duplicates()) by {
        assert forall|i: int, j: int|
            0 <= i < keys.len() && 0 <= j < keys.len() && i != j implies keys[i] != keys[j] by {
            if i < j {
                assert(entries[i].0@ != entries[j].0@);
            } else {
                assert(entries[j].0@ != entries[i].0@);
            }
        }
    }
    assert(keys.to_set() =~= model.dom()) by {
        assert forall|k: Seq<char>| keys.to_set().contains(k) <==> model.dom().contains(k) by {
            if model.dom().contains(k) {
                let i = choose|i: int| 0 <= i < entries.len() && #[trigger] entries[i].0@ == k;
                assert(keys[i] == k);
            }
            if keys.to_set().contains(k) {
                let i = choose|i: int| 0 <= i < keys.len() && keys[i] == k;
                assert(entries[i].0@ == k);
            }
        }
    }
    keys.unique_seq_to_set();
}

impl MimeDb {
    /// Adds the definitions of one line of a `mime.types` file: each word
    /// after the first is mapped to the first; blank lines and comments
    /// change nothing.
    pub fn add_line(&mut self, line: &str)
        ensures
            final(self)@ == insert_all(old(self)@, line_entries(line@)),
    {
        let words = split_words(line);
        let ghost ws = texts(words@);
        let ghost es = line_entries(line@);
        if words.len() == 0 {
            assert(es =~= Seq::<(Seq<char>, Seq<char>)>::empty());
            return;
        }
        let mime = words[0];
        assert(ws[0] == mime@);
        assert(mime@.len() > 0);
        if mime.get_char(0) == '#' {
            assert(is_comment(ws));
            assert(es =~= Seq::<(Seq<char>, Seq<char>)>::empty());
            return;
        }
        assert(es =~= ws.skip(1).map_values(|e: Seq<char>| (e, ws[0])));
        let mut k: usize = 1;
        while k < words.len()
            invariant
                1 <= k <= words@.len(),
                ws == texts(words@),
                mime@ == ws[0],
                es == ws.skip(1).map_values(|e: Seq<char>| (e, ws[0])),
                self@ == insert_all(old(self)@, es.take(k - 1)),
            decreases words@.len() - k,
        {
            let ghost before = self@;
            self.insert(String::from_str(words[k]), String::from_str(mime));
            proof {
                assert(es.take(k as int).drop_last() =~= es.take(k - 1));
                assert(es.take(k as int).last() == es[k - 1]);
                assert(es[k - 1] == (ws[k as int], ws[0]));
                assert(ws[k as int] == words@[k as int]@);
            }
            k = k + 1;
        }
        assert(es.take(words@.len() - 1) =~= es);
    }
}

/// The texts of a sequence of strings.
pub open spec fn line_texts(lines: Seq<String>) -> Seq<Seq<char>> {
    lines.map_values(|l: String| l@)
}

/// The table that the lines of a `mime.types` file define: for each
/// extension, the mime type of its last listing.
pub fn parse_mime_lines(lines: &Vec<String>) -> (r: MimeDb)
    ensures
        r@ == table_of_lines(line_texts(lines@)),
{
    let mut db = MimeDb::new();
    let mut k: usize = 0;
    while k < lines.len()
        invariant
            k <= lines@.len(),
            db@ == table_of_lines(line_texts(lines@).take(k as int)),
        decreases lines@.len() - k,
    {
        db.add_line(lines[k].as_str());
        proof {
            let ls = line_texts(lines@);
            assert(ls.take(k + 1).drop_last() =~= ls.take(k as int));
            assert(ls.take(k + 1).last() == lines@[k as int]@);
        }
        k = k + 1;
    }
    assert(line_texts(lines@).take(lines@.len() as int) =~= line_texts(lines@));
    db
}

// ---------------------------------------------------------------------------
// Laws of the table
// ---------------------------------------------------------------------------

proof fn lemma_insert_all_concat(
    m: Map<Seq<char>, Seq<char>>,
    a: Seq<(Seq<char>, Seq<char>)>,
    b: Seq<(Seq<char>, Seq<char>)>,
)
    ensures
        insert_all(m, a + b) == insert_all(insert_all(m, a), b),
    decreases b.len(),
{
    if b.len() == 0 {
        assert(a + b =~= a);
    } else {
        assert((a + b).drop_last() =~= a + b.drop_last());
        assert((a + b).last() == b.last());
        lemma_insert_all_concat(m, a, b.drop_last());
    }
}

proof fn lemma_table_is_all_entries(lines: Seq<Seq<char>>)
    ensures
        table_of_lines(lines) == insert_all(Map::empty(), all_entries(lines)),
    decreases lines.len(),
{
    if lines.len() > 0 {
        lemma_table_is_all_entries(lines.drop_last());
        lemma_insert_all_concat(
            Map::empty(),
            all_entries(lines.drop_last()),
            line_entries(lines.last()),
        );
    }
}

proof fn lemma_insert_all_last(
    m: Map<Seq<char>, Seq<char>>,
    es: Seq<(Seq<char>, Seq<char>)>,
    k: Seq<char>,
    i: int,
)
    requires
        0 <= i < es.len(),
        es[i].0 == k,
        forall|j: int| i < j < es.len() ==> es[j].0 != k,
    ensures
        insert_all(m, es).dom().contains(k),
        insert_all(m, es)[k] == es[i].1,
    decreases es.len(),
{
    if i < es.len() - 1 {
        assert(es.drop_last()[i] == es[i]);
        lemma_insert_all_last(m, es.drop_last(), k, i);
        assert(es.last() == es[es.len() - 1]);
    }
}

proof fn lemma_insert_all_absent(
    m: Map<Seq<char>, Seq<char>>,
    es: Seq<(Seq<char>, Seq<char>)>,
    k: Seq<char>,
)
    requires
        forall|j: int| 0 <= j < es.len() ==> es[j].0 != k,
    ensures
        insert_all(m, es).dom().contains(k) == m.dom().contains(k),
    decreases es.len(),
{
    if es.len() > 0 {
        assert(es.last() == es[es.len() - 1]);
        lemma_insert_all_absent(m, es.drop_last(), k);
    }
}

/// When an extension is listed more than once, the last listing wins: the
/// table maps it to the mime type of its last listing in file order.
pub proof fn lemma_last_listing_wins(lines: Seq<Seq<char>>, ext: Seq<char>, i: int)
    requires
        0 <= i < all_entries(lines).len(),
        all_entries(lines)[i].0 == ext,
        forall|j: int| i < j < all_entries(lines).len() ==> all_entries(lines)[j].0 != ext,
    ensures
        table_of_lines(lines).dom().contains(ext),
        table_of_lines(lines)[ext] == all_entries(lines)[i].1,
{
    lemma_table_is_all_entries(lines);
    lemma_insert_all_last(Map::empty(), all_entries(lines), ext, i);
}

/// An extension that no line lists has no mime type.
pub proof fn lemma_unlisted_extension(lines: Seq<Seq<char>>, ext: Seq<char>)
    requires
        forall|j: int| 0 <= j < all_entries(lines).len() ==> all_entries(lines)[j].0 != ext,
    ensures
        !table_of_lines(lines).dom().contains(ext),
{
    lemma_table_is_all_entries(lines);
    lemma_insert_all_absent(Map::empty(), all_entries(lines), ext);
}

// ---------------------------------------------------------------------------
// Laws of words and lines
// ---------------------------------------------------------------------------

proof fn lemma_word_scan_after(p: Seq<char>, b: Seq<char>, d: Seq<Seq<char>>)
    requires
        word_scan(p) == (d, Seq::<char>::empty()),
    ensures
        word_scan(p + b) == (d + word_scan(b).0, word_scan(b).1),
    decreases b.len(),
{
    if b.len() == 0 {
        assert(p + b =~= p);
        assert(d + Seq::<Seq<char>>::empty() =~= d);
    } else {
        let bl = b.drop_last();
        lemma_word_scan_after(p, bl, d);
        assert((p + b).drop_last() =~= p + bl);
        assert((p + b).last() == b.last());
        let (x, c) = word_scan(bl);
        if is_white(b.last()) && c.len() > 0 {
            assert((d + x).push(c) =~= d + x.push(c));
        }
    }
}

proof fn lemma_word_scan_single(w: Seq<char>)
    requires
        forall|j: int| 0 <= j < w.len() ==> !is_white(w[j]),
    ensures
        word_scan(w) == (Seq::<Seq<char>>::empty(), w),
    decreases w.len(),
{
    if w.len() > 0 {
        let dl = w.drop_last();
        assert forall|j: int| 0 <= j < dl.len() implies !is_white(dl[j]) by {
            assert(dl[j] == w[j]);
        }
        lemma_word_scan_single(dl);
        assert(!is_white(w[w.len() - 1]));
        assert(dl.push(w.last()) =~= w);
    }
}

/// A line without white space has no word when empty, and is one word
/// otherwise.
pub proof fn lemma_single_word(w: Seq<char>)
    requires
        forall|j: int| 0 <= j < w.len() ==> !is_white(w[j]),
    ensures
        w.len() == 0 ==> spec_words(w) == Seq::<Seq<char>>::empty(),
        w.len() > 0 ==> spec_words(w) == seq![w],
{
    lemma_word_scan_single(w);
    if w.len() > 0 {
        assert(Seq::<Seq<char>>::empty().push(w) =~= seq![w]);
    }
}

/// A white-space character separates words: the words of `a`, a white-space
/// character, then `b` are the words of `a` followed by those of `b`.
pub proof fn lemma_words_split_at_white(a: Seq<char>, c: char, b: Seq<char>)
    requires
        is_white(c),
    ensures
        spec_words(a + seq![c] + b) == spec_words(a) + spec_words(b),
{
    let ac = a + seq![c];
    assert(ac.drop_last() =~= a);
    assert(ac.last() == c);
    let d = spec_words(a);
    assert(word_scan(ac) == (d, Seq::<char>::empty()));
    lemma_word_scan_after(ac, b, d);
    let (x, cur) = word_scan(b);
    if cur.len() > 0 {
        assert((d + x).push(cur) =~= d + x.push(cur));
    }
}

/// Each word of a line after the first is one extension of the mime type
/// that the first word names, in order, when the line is neither blank nor a
/// comment.
pub proof fn lemma_line_entries_are_words(line: Seq<char>)
    requires
        spec_words(line).len() > 0,
        spec_words(line)[0][0] != '#',
    ensures
        line_entries(line).len() == spec_words(line).len() - 1,
        forall|i: int|
            0 <= i < line_entries(line).len() ==> #[trigger] line_entries(line)[i] == (
                spec_words(line)[i + 1],
                spec_words(line)[0],
            ),
{
}

/// A blank line, or one whose first word starts with `#`, defines nothing.
pub proof fn lemma_blank_or_comment_defines_nothing(line: Seq<char>)
    requires
        spec_words(line).len() == 0 || (spec_words(line)[0].len() > 0 && spec_words(line)[0][0]
            == '#'),
    ensures
        line_entries(line).len() == 0,
{
}

proof fn lemma_insert_all_same_value(
    m: Map<Seq<char>, Seq<char>>,
    es: Seq<(Seq<char>, Seq<char>)>,
    v: Seq<char>,
    k: Seq<char>,
)
    requires
        forall|j: int| 0 <= j < es.len() ==> (#[trigger] es[j]).1 == v,
        exists|j: int| 0 <= j < es.len() && (#[trigger] es[j]).0 == k,
    ensures
        insert_all(m, es).dom().contains(k),
        insert_all(m, es)[k] == v,
    decreases es.len(),
{
    let n = es.len();
    assert(es.last() == es[n - 1]);
    if es.last().0 != k {
        let dl = es.drop_last();
        let j = choose|j: int| 0 <= j < es.len() && (#[trigger] es[j]).0 == k;
        assert(dl[j] == es[j]);
        assert forall|i: int| 0 <= i < dl.len() implies (#[trigger] dl[i]).1 == v by {
            assert(dl[i] == es[i]);
        }
        lemma_insert_all_same_value(m, dl, v, k);
    }
}

proof fn lemma_insert_all_keeps(
    m: Map<Seq<char>, Seq<char>>,
    es: Seq<(Seq<char>, Seq<char>)>,
    k: Seq<char>,
)
    requires
        forall|j: int| 0 <= j < es.len() ==> (#[trigger] es[j]).0 != k,
    ensures
        insert_all(m, es).dom().contains(k) == m.dom().contains(k),
        m.dom().contains(k) ==> insert_all(m, es)[k] == m[k],
    decreases es.len(),
{
    if es.len() > 0 {
        assert(es.last() == es[es.len() - 1]);
        let dl = es.drop_last();
        assert forall|i: int| 0 <= i < dl.len() implies (#[trigger] dl[i]).0 != k by {
            assert(dl[i] == es[i]);
        }
        lemma_insert_all_keeps(m, dl, k);
    }
}

/// Adding a line that is neither blank nor a comment maps every word after
/// the first to the first word, and leaves every other extension as it was.
pub proof fn lemma_line_maps_its_extensions(m: Map<Seq<char>, Seq<char>>, line: Seq<char>, k: Seq<char>)
    requires
        spec_words(line).len() > 0,
        spec_words(line)[0][0] != '#',
    ensures
        (exists|i: int| 1 <= i < spec_words(line).len() && spec_words(line)[i] == k) ==> (
            insert_all(m, line_entries(line)).dom().contains(k) && insert_all(
                m,
                line_entries(line),
            )[k] == spec_words(line)[0]),
        (forall|i: int| 1 <= i < spec_words(line).len() ==> spec_words(line)[i] != k) ==> (
            insert_all(m, line_entries(line)).dom().contains(k) == m.dom().contains(k) && (
            m.dom().contains(k) ==> insert_all(m, line_entries(line))[k] == m[k])),
{
    let ws = spec_words(line);
    let es = line_entries(line);
    lemma_line_entries_are_words(line);
    assert forall|j: int| 0 <= j < es.len() implies (#[trigger] es[j]).1 == ws[0] by {
        assert(es[j] == (ws[j + 1], ws[0]));
    }
    if exists|i: int| 1 <= i < ws.len() && ws[i] == k {
        let i = choose|i: int| 1 <= i < ws.len() && ws[i] == k;
        assert(es[i - 1] == (ws[i], ws[0]));
        lemma_insert_all_same_value(m, es, ws[0], k);
    }
    if forall|i: int| 1 <= i < ws.len() ==> ws[i] != k {
        assert forall|j: int| 0 <= j < es.len() implies (#[trigger] es[j]).0 != k by {
            assert(es[j] == (ws[j + 1], ws[0]));
        }
        lemma_insert_all_keeps(m, es, k);
    }
}

} // verus!
