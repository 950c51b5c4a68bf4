//! The index: each word mapped to the set of documents that contain it.

use crate::scanner::{
    is_maximal_run, lemma_maximal_runs_are_words, lemma_words_are_maximal_runs, occurs_as_word, words_of, Matcher,
};
use vstd::prelude::*;

verus! {

/// One word of the index and the paths of the documents that contain it.
pub struct Entry {
    pub word: String,
    pub paths: Vec<String>,
}

/// `m` after recording that the document at `path` contains the word `w`.
pub open spec fn with_word(
    m: Map<Seq<char>, Set<Seq<char>>>,
    path: Seq<char>,
    w: Seq<char>,
) -> Map<Seq<char>, Set<Seq<char>>> {
    m.insert(w, if m.dom().contains(w) { m[w].insert(path) } else { set![path] })
}

/// `m` after recording that the document at `path` contains each of the words `ws`.
pub open spec fn with_words(
    m: Map<Seq<char>, Set<Seq<char>>>,
    path: Seq<char>,
    ws: Seq<Seq<char>>,
) -> Map<Seq<char>, Set<Seq<char>>> {
    Map::new(
        |w: Seq<char>| m.dom().contains(w) || ws.contains(w),
        |w: Seq<char>|
            if !ws.contains(w) {
                m[w]
            } else if m.dom().contains(w) {
                m[w].insert(path)
            } else {
                set![path]
            },
    )
}

/// `m` after indexing the document at `path` whose text is `text`.
pub open spec fn with_document(
    m: Map<Seq<char>, Set<Seq<char>>>,
    path: Seq<char>,
    text: Seq<char>,
) -> Map<Seq<char>, Set<Seq<char>>> {
    with_words(m, path, words_of(text))
}

proof fn lemma_with_words_push(
    m: Map<Seq<char>, Set<Seq<char>>>,
    path: Seq<char>,
    ws: Seq<Seq<char>>,
    w: Seq<char>,
)
    ensures
        with_words(m, path, ws.push(w)) == with_word(with_words(m, path, ws), path, w),
{
    assert forall|x: Seq<char>| #[trigger] ws.push(w).contains(x) <==> (ws.contains(x) || x == w) by {
        if ws.push(w).contains(x) {
            let k = choose|k: int| 0 <= k < ws.push(w).len() && ws.push(w)[k] == x;
            if k < ws.len() {
                assert(ws[k] == x);
            }
        }
        if ws.contains(x) {
            let k = choose|k: int| 0 <= k < ws.len() && ws[k] == x;
            assert(ws.push(w)[k] == x);
        }
        if x == w {
            assert(ws.push(w)[ws.len() as int] == x);
        }
    }
    let lhs = with_words(m, path, ws.push(w));
    let rhs = with_word(with_words(m, path, ws), path, w);
    assert forall|x: Seq<char>| #[trigger] lhs.dom().contains(x) implies lhs[x] == rhs[x] by {
        if x == w && ws.contains(w) {
            if m.dom().contains(w) {
                assert(m[w].insert(path).insert(path) =~= m[w].insert(path));
            } else {
                assert(set![path].insert(path) =~= set![path]);
            }
        }
    }
    assert(lhs =~= rhs);
}

/// After a document is indexed, each path in a word's set was there before,
/// or is the document's own path and the word occurs in its text as a maximal
/// run of alphabetic characters; and every maximal run of alphabetic
/// characters in the text is a word with the document's path in its set.
pub proof fn lemma_index_sound(
    m: Map<Seq<char>, Set<Seq<char>>>,
    path: Seq<char>,
    text: Seq<char>,
)
    ensures
        forall|w: Seq<char>, q: Seq<char>|
            #[trigger] with_document(m, path, text).dom().contains(w) && #[trigger] with_document(
                m,
                path,
                text,
            )[w].contains(q) ==> (m.dom().contains(w) && m[w].contains(q)) || (q == path
                && occurs_as_word(text, w)),
        forall|w: Seq<char>|
            #[trigger] occurs_as_word(text, w) ==> with_document(m, path, text).dom().contains(w)
                && with_document(m, path, text)[w].contains(path),
{
    let ws = words_of(text);
    let r = with_document(m, path, text);
    lemma_words_are_maximal_runs(text);
    assert forall|w: Seq<char>, q: Seq<char>|
        #[trigger] r.dom().contains(w) && #[trigger] r[w].contains(q) implies (m.dom().contains(w)
        && m[w].contains(q)) || (q == path && occurs_as_word(text, w)) by {
        if ws.contains(w) {
            let k = choose|k: int| 0 <= k < ws.len() && ws[k] == w;
            assert(occurs_as_word(text, ws[k]));
        }
    }
    assert forall|w: Seq<char>| #[trigger] occurs_as_word(text, w) implies r.dom().contains(w)
        && r[w].contains(path) by {
        let (j, e) = choose|j: int, e: int| is_maximal_run(text, j, e) && text.subrange(j, e) == w;
        lemma_maximal_runs_are_words(text, j, e);
    }
}

/// Indexing the same document a second time leaves the index as it was.
pub proof fn lemma_add_twice(m: Map<Seq<char>, Set<Seq<char>>>, path: Seq<char>, text: Seq<char>)
    ensures
        with_document(with_document(m, path, text), path, text) == with_document(m, path, text),
{
    let once = with_document(m, path, text);
    let twice = with_document(once, path, text);
    let ws = words_of(text);
    assert forall|w: Seq<char>| #[trigger] twice.dom().contains(w) implies twice[w] == once[w] by {
        if ws.contains(w) {
            if m.dom().contains(w) {
                assert(m[w].insert(path).insert(path) =~= m[w].insert(path));
            } else {
                assert(set![path].insert(path) =~= set![path]);
            }
        }
    }
    assert(twice =~= once);
}

/// The paths held in an entry, as a set.
pub open spec fn path_set(e: Entry) -> Set<Seq<char>> {
    Set::new(|q: Seq<char>| exists|k: int| 0 <= k < e.paths@.len() && e.paths@[k]@ == q)
}

/// A word-to-paths index over a set of documents.
pub struct Indexes {
    entries: Vec<Entry>,
    model: Ghost<Map<Seq<char>, Set<Seq<char>>>>,
}

impl View for Indexes {
    type V = Map<Seq<char>, Set<Seq<char>>>;

    closed spec fn view(&self) -> Map<Seq<char>, Set<Seq<char>>> {
        self.model@
    }
}

impl Indexes {
    /// Words are unique among the entries, each entry holds one or more
    /// distinct paths, and the entries describe the view exactly.
    pub closed spec fn wf(&self) -> bool {
        let es = self.entries@;
        &&& forall|i: int, j: int|
            0 <= i < j < es.len() ==> #[trigger] es[i].word@ != #[trigger] es[j].word@
        &&& forall|i: int| 0 <= i < es.len() ==> #[trigger] es[i].paths@.len() > 0
        &&& forall|i: int, a: int, b: int|
            0 <= i < es.len() && 0 <= a < b < es[i].paths@.len() ==> #[trigger] es[i].paths@[a]@
                != #[trigger] es[i].paths@[b]@
        &&& forall|i: int|
            0 <= i < es.len() ==> self.model@.dom().contains(#[trigger] es[i].word@)
                && self.model@[es[i].word@] == path_set(es[i])
        &&& forall|w: Seq<char>|
            #[trigger] self.model@.dom().contains(w) ==> exists|i: int|
                0 <= i < es.len() && #[trigger] es[i].word@ == w
    }

    /// An empty index.
    pub fn new() -> (r: Indexes)
        ensures
            r.wf(),
            r@ == Map::<Seq<char>, Set<Seq<char>>>::empty(),
    {
        Indexes { entries: Vec::new(), model: Ghost(Map::empty()) }
    }

    /// The entries of the index, one for each word, in no particular order.
    pub fn entries(&self) -> (r: &Vec<Entry>)
        requires
            self.wf(),
        ensures
            forall|i: int|
                0 <= i < r@.len() ==> self@.dom().contains(#[trigger] r@[i].word@) && self@[r@[i].word@]
                    == path_set(r@[i]),
            forall|w: Seq<char>|
                #[trigger] self@.dom().contains(w) ==> exists|i: int|
                    0 <= i < r@.len() && #[trigger] r@[i].word@ == w,
            forall|i: int, j: int|
                0 <= i < j < r@.len() ==> #[trigger] r@[i].word@ != #[trigger] r@[j].word@,
    {
        assert forall|i: int, j: int| 0 <= i < j < self.entries@.len() implies #[trigger] self.entries@[i].word@
            != #[trigger] self.entries@[j].word@ by {
            let es = self.entries@;
            assert(es[i].word@ != es[j].word@);
        }
        &self.entries
    }

    /// The paths of the documents that contain `word`, or `None` where no
    /// document does.
    pub fn paths_of(&self, word: &str) -> (r: Option<&Vec<String>>)
        requires
            self.wf(),
        ensures
            match r {
                Some(v) => self@.dom().contains(word@) && self@[word@] == Set::new(
                    |q: Seq<char>| exists|k: int| 0 <= k < v@.len() && v@[k]@ == q,
                ),
                None => !self@.dom().contains(word@),
            },
    {
        let w = word.to_owned();
        match self.find(&w) {
            Some(i) => {
                let e = &self.entries[i];
                assert(path_set(*e) == Set::new(
                    |q: Seq<char>| exists|k: int| 0 <= k < e.paths@.len() && e.paths@[k]@ == q,
                ));
                Some(&e.paths)
            },
            None => {
                assert(!self@.dom().contains(word@));
                None
            },
        }
    }

    /// The position of the entry for `word`, if there is one.
    fn find(&self, word: &String) -> (r: Option<usize>)
        requires
            self.wf(),
        ensures
            match r {
                Some(i) => i < self.entries@.len() && self.entries@[i as int].word@ == word@,
                None => forall|i: int|
                    0 <= i < self.entries@.len() ==> #[trigger] self.entries@[i].word@ != word@,
            },
    {
        let mut i: usize = 0;
        while i < self.entries.len()
            invariant
                i <= self.entries@.len(),
                forall|j: int| 0 <= j < i ==> #[trigger] self.entries@[j].word@ != word@,
            decreases self.entries@.len() - i,
        {
            if self.entries[i].word == *word {
                return Some(i);
            }
            i = i + 1;
        }
        None
    }

    /// Records that the document at `path` contains `word`.
    fn add_word(&mut self, path: &String, word: String)
        requires
            old(self).wf(),
        ensures
            final(self).wf(),
            final(self)@ == with_word(old(self)@, path@, word@),
    {
        let ghost m = self.model@;
        match self.find(&word) {
            None => {
                let ghost w = word@;
                self.entries.push(Entry { word, paths: vec![path.clone()] });
                self.model = Ghost(with_word(m, path@, w));
                let ghost es = self.entries@;
                assert(path_set(es[es.len() - 1]) =~= set![path@]) by {
                    assert(es[es.len() - 1].paths@[0]@ == path@);
                }
                assert forall|i: int| 0 <= i < es.len() implies self.model@.dom().contains(
                    #[trigger] es[i].word@,
                ) && self.model@[es[i].word@] == path_set(es[i]) by {
                    if i < es.len() - 1 {
                        assert(es[i] == old(self).entries@[i]);
                    }
                }
                assert forall|x: Seq<char>| #[trigger]
                    self.model@.dom().contains(x) implies exists|i: int|
                    0 <= i < es.len() && #[trigger] es[i].word@ == x by {
                    if x == w {
                        assert(es[es.len() - 1].word@ == x);
                    } else {
                        let i = choose|i: int|
                            0 <= i < old(self).entries@.len() && #[trigger] old(
                                self,
                            ).entries@[i].word@ == x;
                        assert(es[i] == old(self).entries@[i]);
                    }
                }
            },
            Some(i) => {
                let mut k: usize = 0;
                let mut present = false;
                while k < self.entries[i].paths.len()
                    invariant
                        self.entries == old(self).entries,
                        i < self.entries@.len(),
                        k <= self.entries@[i as int].paths@.len(),
                        present ==> exists|a: int|
                            0 <= a < self.entries@[i as int].paths@.len()
                                && #[trigger] self.entries@[i as int].paths@[a]@ == path@,
                        !present ==> forall|a: int|
                            0 <= a < k ==> #[trigger] self.entries@[i as int].paths@[a]@
                                != path@,
                    decreases self.entries@[i as int].paths@.len() - k,
                {
                    if self.entries[i].paths[k] == *path {
                        present = true;
                    }
                    k = k + 1;
                }
                if present {
                    assert(with_word(m, path@, word@) =~= m) by {
                        assert(m[word@].insert(path@) =~= m[word@]);
                    }
                } else {
                    self.entries[i].paths.push(path.clone());
                    self.model = Ghost(with_word(m, path@, word@));
                    let ghost es = self.entries@;
                    assert(path_set(es[i as int]) =~= m[word@].insert(path@)) by {
                        let olde = old(self).entries@[i as int];
                        assert forall|q: Seq<char>| #[trigger]
                            path_set(es[i as int]).contains(q) implies m[word@].insert(
                            path@,
                        ).contains(q) by {
                            let a = choose|a: int|
                                0 <= a < es[i as int].paths@.len()
                                    && es[i as int].paths@[a]@ == q;
                            if a < olde.paths@.len() {
                                assert(olde.paths@[a]@ == q);
                                assert(path_set(olde).contains(q));
                            }
                        }
                        assert forall|q: Seq<char>| #[trigger]
                            m[word@].insert(path@).contains(q) implies path_set(
                            es[i as int],
                        ).contains(q) by {
                            if q == path@ {
                                assert(es[i as int].paths@[olde.paths@.len() as int]@ == q);
                            } else {
                                assert(path_set(olde).contains(q));
                                let a = choose|a: int|
                                    0 <= a < olde.paths@.len() && olde.paths@[a]@ == q;
                                assert(es[i as int].paths@[a]@ == q);
                            }
                        }
                    }
                    assert forall|j: int| 0 <= j < es.len() implies self.model@.dom().contains(
                        #[trigger] es[j].word@,
                    ) && self.model@[es[j].word@] == path_set(es[j]) by {
                        if j != i {
                            assert(es[j] == old(self).entries@[j]);
                        }
                    }
                    assert forall|j: int, a: int, b: int|
                        0 <= j < es.len() && 0 <= a < b < es[j].paths@.len() implies #[trigger] es[j].paths@[a]@
                        != #[trigger] es[j].paths@[b]@ by {
                        if j != i {
                            assert(es[j] == old(self).entries@[j]);
                        }
                    }
                    assert forall|x: Seq<char>| #[trigger]
                        self.model@.dom().contains(x) implies exists|j: int|
                        0 <= j < es.len() && #[trigger] es[j].word@ == x by {
                        let j = choose|j: int|
                            0 <= j < old(self).entries@.len() && #[trigger] old(
                                self,
                            ).entries@[j].word@ == x;
                        assert(es[j].word@ == x);
                    }
                }
            },
        }
    }

    /// Indexes the document at `path` whose text is `content`: every word of
    /// the text gets `path` in its set.
    pub fn add_file(&mut self, path: &str, content: &str)
        requires
            old(self).wf(),
        ensures
            final(self).wf(),
            final(self)@ == with_document(old(self)@, path@, content@),
    {
        let p = path.to_owned();
        let mut matcher = Matcher::new(content);
        let ghost ws = words_of(content@);
        let ghost done: Seq<Seq<char>> = seq![];
        assert(with_words(old(self)@, p@, done) =~= old(self)@);
        loop
            invariant
                self.wf(),
                matcher.wf(),
                matcher.source() == content@,
                matcher.position() <= content@.len(),
                ws == done + matcher.pending(),
                self@ == with_words(old(self)@, p@, done),
            ensures
                self.wf(),
                self@ == with_words(old(self)@, p@, ws),
            decreases matcher.source().len() - matcher.position(),
        {
            match matcher.next_word() {
                Some(w) => {
                    proof {
                        lemma_with_words_push(old(self)@, p@, done, w@);
                        done = done.push(w@);
                    }
                    assert(ws == done + matcher.pending());
                    self.add_word(&p, w);
                },
                None => {
                    assert(done + matcher.pending() =~= done);
                    break;
                },
            }
        }
    }
}

} // verus!
