//! The word scanner: maximal runs of alphabetic characters, left to right.

use vstd::prelude::*;
use vstd::std_specs::iter::IteratorSpec;

verus! {

/// Whether `c` has the Unicode `Alphabetic` property.
pub uninterp spec fn alphabetic(c: char) -> bool;

/// Relies on `char::is_alphabetic`: whether the character has the Unicode
/// `Alphabetic` property, which depends on the character alone.
pub assume_specification[ char::is_alphabetic ](c: char) -> (r: bool)
    ensures
        r == alphabetic(c),
;

/// Whether `c` is a word character.
pub fn word(c: &char) -> (r: bool)
    ensures
        r == alphabetic(*c),
{
    c.is_alphabetic()
}

/// Relies on `String::push`: appends the character at the end of the string.
#[verifier::external_body]
fn push_char(s: &mut String, c: char)
    ensures
        final(s)@ == old(s)@.push(c),
{
    s.push(c)
}

/// The words of `s` from position `i`, where `i` lies outside any word.
pub open spec fn words_out(s: Seq<char>, i: int) -> Seq<Seq<char>>
    decreases s.len() - i, 0int,
{
    if i < 0 || i >= s.len() {
        seq![]
    } else if !alphabetic(s[i]) {
        words_out(s, i + 1)
    } else {
        words_in(s, i, i + 1)
    }
}

/// The words of `s` from position `i`, inside a word that began at `start`.
pub open spec fn words_in(s: Seq<char>, start: int, i: int) -> Seq<Seq<char>>
    decreases s.len() - i, 1int,
{
    if 0 <= i < s.len() && alphabetic(s[i]) {
        words_in(s, start, i + 1)
    } else {
        seq![s.subrange(start, i)] + words_out(s, i)
    }
}

/// The words of `s`: its maximal runs of alphabetic characters, in order.
pub open spec fn words_of(s: Seq<char>) -> Seq<Seq<char>> {
    words_out(s, 0)
}

/// `s[j..e]` is a maximal run of alphabetic characters: it is not empty, all
/// its characters are alphabetic, and the characters on either side are not.
pub open spec fn is_maximal_run(s: Seq<char>, j: int, e: int) -> bool {
    &&& 0 <= j < e <= s.len()
    &&& forall|p: int| j <= p < e ==> alphabetic(#[trigger] s[p])
    &&& j == 0 || !alphabetic(s[j - 1])
    &&& e == s.len() || !alphabetic(s[e])
}

/// `w` occurs in `s` as a maximal run of alphabetic characters.
pub open spec fn occurs_as_word(s: Seq<char>, w: Seq<char>) -> bool {
    exists|j: int, e: int| is_maximal_run(s, j, e) && s.subrange(j, e) == w
}

proof fn lemma_no_letters_from(s: Seq<char>, i: int)
    requires
        0 <= i <= s.len(),
        forall|p: int| 0 <= p < s.len() ==> !alphabetic(#[trigger] s[p]),
    ensures
        words_out(s, i) == Seq::<Seq<char>>::empty(),
    decreases s.len() - i,
{
    if i < s.len() {
        lemma_no_letters_from(s, i + 1);
    }
}

/// A text without alphabetic characters has no words.
pub proof fn lemma_no_letters_no_words(s: Seq<char>)
    requires
        forall|p: int| 0 <= p < s.len() ==> !alphabetic(#[trigger] s[p]),
    ensures
        words_of(s) == Seq::<Seq<char>>::empty(),
{
    lemma_no_letters_from(s, 0);
}

proof fn lemma_runs_out(s: Seq<char>, i: int)
    requires
        0 <= i <= s.len(),
        i == 0 || i == s.len() || !alphabetic(s[i - 1]) || !alphabetic(s[i]),
    ensures
        forall|k: int|
            0 <= k < words_out(s, i).len() ==> occurs_as_word(s, #[trigger] words_out(s, i)[k]),
    decreases s.len() - i, 0int,
{
    if i < s.len() {
        if !alphabetic(s[i]) {
            lemma_runs_out(s, i + 1);
            assert(words_out(s, i) == words_out(s, i + 1));
        } else {
            lemma_runs_in(s, i, i + 1);
            assert(words_out(s, i) == words_in(s, i, i + 1));
        }
    }
}

proof fn lemma_runs_in(s: Seq<char>, start: int, i: int)
    requires
        0 <= start < i <= s.len(),
        start == 0 || !alphabetic(s[start - 1]),
        forall|p: int| start <= p < i ==> alphabetic(#[trigger] s[p]),
    ensures
        forall|k: int|
            0 <= k < words_in(s, start, i).len() ==> occurs_as_word(
                s,
                #[trigger] words_in(s, start, i)[k],
            ),
    decreases s.len() - i, 1int,
{
    if i < s.len() && alphabetic(s[i]) {
        lemma_runs_in(s, start, i + 1);
        assert(words_in(s, start, i) == words_in(s, start, i + 1));
    } else {
        lemma_runs_out(s, i);
        let ws = words_in(s, start, i);
        assert(ws == seq![s.subrange(start, i)] + words_out(s, i));
        let tail = words_out(s, i);
        assert(is_maximal_run(s, start, i));
        assert forall|k: int| 0 <= k < ws.len() implies occurs_as_word(s, #[trigger] ws[k]) by {
            if k == 0 {
                assert(ws[0] == s.subrange(start, i));
                assert(is_maximal_run(s, start, i) && s.subrange(start, i) == ws[k]);
            } else {
                assert(ws[k] == tail[k - 1]);
            }
        }
    }
}

/// Every word of a text occurs in it as a maximal run of alphabetic characters.
pub proof fn lemma_words_are_maximal_runs(s: Seq<char>)
    ensures
        forall|k: int|
            0 <= k < words_of(s).len() ==> occurs_as_word(s, #[trigger] words_of(s)[k]),
{
    lemma_runs_out(s, 0);
}

/// The bounds of the words of `s` from position `i`, where `i` lies outside any word.
pub open spec fn spans_out(s: Seq<char>, i: int) -> Seq<(int, int)>
    decreases s.len() - i, 0int,
{
    if i < 0 || i >= s.len() {
        seq![]
    } else if !alphabetic(s[i]) {
        spans_out(s, i + 1)
    } else {
        spans_in(s, i, i + 1)
    }
}

/// The bounds of the words of `s` from position `i`, inside a word that began at `start`.
pub open spec fn spans_in(s: Seq<char>, start: int, i: int) -> Seq<(int, int)>
    decreases s.len() - i, 1int,
{
    if 0 <= i < s.len() && alphabetic(s[i]) {
        spans_in(s, start, i + 1)
    } else {
        seq![(start, i)] + spans_out(s, i)
    }
}

/// For each word of `s`, the positions where it begins and where it ends.
pub open spec fn word_spans(s: Seq<char>) -> Seq<(int, int)> {
    spans_out(s, 0)
}

/// Position `p` lies inside one of the spans `sp`.
pub open spec fn in_some_span(sp: Seq<(int, int)>, p: int) -> bool {
    exists|k: int| 0 <= k < sp.len() && sp[k].0 <= p < #[trigger] sp[k].1
}

/// The spans `sp` bound the words `ws` of `s` from position `lo` on: each word
/// is the text inside its span, no span could be extended to the right, the
/// spans come in order with a gap between neighbours, and a character at `lo`
/// or after lies in a span exactly when it is alphabetic.
pub open spec fn partitions(s: Seq<char>, lo: int, sp: Seq<(int, int)>, ws: Seq<Seq<char>>) -> bool {
    &&& sp.len() == ws.len()
    &&& forall|k: int|
        0 <= k < sp.len() ==> lo <= (#[trigger] sp[k]).0 < sp[k].1 <= s.len() && ws[k]
            == s.subrange(sp[k].0, sp[k].1)
    &&& forall|k: int|
        0 <= k < sp.len() ==> (#[trigger] sp[k]).1 == s.len() || !alphabetic(s[sp[k].1])
    &&& forall|k: int| 0 <= k < sp.len() - 1 ==> (#[trigger] sp[k]).1 < sp[k + 1].0
    &&& forall|p: int| lo <= p < s.len() ==> (alphabetic(s[p]) <==> #[trigger] in_some_span(sp, p))
}

proof fn lemma_in_some_span_cons(x: (int, int), t: Seq<(int, int)>, p: int)
    ensures
        in_some_span(seq![x] + t, p) <==> (x.0 <= p < x.1 || in_some_span(t, p)),
{
    let sp = seq![x] + t;
    if in_some_span(sp, p) {
        let k = choose|k: int| 0 <= k < sp.len() && sp[k].0 <= p < #[trigger] sp[k].1;
        if k > 0 {
            assert(t[k - 1] == sp[k]);
        }
    }
    if in_some_span(t, p) {
        let k = choose|k: int| 0 <= k < t.len() && t[k].0 <= p < #[trigger] t[k].1;
        assert(sp[k + 1] == t[k]);
    }
    if x.0 <= p < x.1 {
        assert(sp[0] == x);
    }
}

/// From any position on, the words of a text and the separator runs between
/// them partition the rest of the text.
pub proof fn lemma_partition_from(s: Seq<char>, i: int)
    requires
        0 <= i <= s.len(),
    ensures
        partitions(s, i, spans_out(s, i), words_out(s, i)),
    decreases s.len() - i, 0int,
{
    if i < s.len() {
        if !alphabetic(s[i]) {
            lemma_partition_from(s, i + 1);
            assert(spans_out(s, i) == spans_out(s, i + 1));
            assert(words_out(s, i) == words_out(s, i + 1));
            let sp = spans_out(s, i);
            assert(!in_some_span(sp, i)) by {
                if in_some_span(sp, i) {
                    let k = choose|k: int| 0 <= k < sp.len() && sp[k].0 <= i < #[trigger] sp[k].1;
                }
            }
        } else {
            lemma_spans_in(s, i, i + 1);
            assert(spans_out(s, i) == spans_in(s, i, i + 1));
            assert(words_out(s, i) == words_in(s, i, i + 1));
        }
    }
}

proof fn lemma_spans_in(s: Seq<char>, start: int, i: int)
    requires
        0 <= start < i <= s.len(),
        forall|p: int| start <= p < i ==> alphabetic(#[trigger] s[p]),
    ensures
        partitions(s, start, spans_in(s, start, i), words_in(s, start, i)),
        spans_in(s, start, i).len() > 0 && spans_in(s, start, i)[0].0 == start,
    decreases s.len() - i, 1int,
{
    if i < s.len() && alphabetic(s[i]) {
        lemma_spans_in(s, start, i + 1);
        assert(spans_in(s, start, i) == spans_in(s, start, i + 1));
        assert(words_in(s, start, i) == words_in(s, start, i + 1));
    } else {
        let t = spans_out(s, i);
        let tw = words_out(s, i);
        let sp = spans_in(s, start, i);
        let ws = words_in(s, start, i);
        assert(sp == seq![(start, i)] + t);
        assert(ws == seq![s.subrange(start, i)] + tw);
        if i < s.len() {
            lemma_partition_from(s, i + 1);
            assert(t == spans_out(s, i + 1));
            assert(tw == words_out(s, i + 1));
        } else {
            assert(t.len() == 0);
            assert(tw.len() == 0);
        }
        assert forall|k: int| 0 <= k < sp.len() implies start <= (#[trigger] sp[k]).0 < sp[k].1
            <= s.len() && ws[k] == s.subrange(sp[k].0, sp[k].1) && (sp[k].1 == s.len()
            || !alphabetic(s[sp[k].1])) by {
            if k > 0 {
                assert(sp[k] == t[k - 1]);
                assert(ws[k] == tw[k - 1]);
            }
        }
        assert forall|k: int| 0 <= k < sp.len() - 1 implies (#[trigger] sp[k]).1 < sp[k + 1].0 by {
            assert(sp[k + 1] == t[k]);
            if k > 0 {
                assert(sp[k] == t[k - 1]);
            }
        }
        assert forall|p: int| start <= p < s.len() implies (alphabetic(s[p]) <==> #[trigger] in_some_span(sp, p)) by {
            lemma_in_some_span_cons((start, i), t, p);
            if p >= i {
                if p == i {
                    assert(!in_some_span(t, p)) by {
                        if in_some_span(t, p) {
                            let k = choose|k: int| 0 <= k < t.len() && t[k].0 <= p < #[trigger] t[k].1;
                        }
                    }
                }
            }
        }
    }
}

/// The words of a text and the separator runs between them partition it:
/// each word is the text between the bounds of its span, the spans come in
/// order with at least one separator between neighbours, and a character
/// lies inside a span exactly when it is alphabetic.
pub proof fn lemma_partition(s: Seq<char>)
    ensures
        partitions(s, 0, word_spans(s), words_of(s)),
{
    lemma_partition_from(s, 0);
}

/// Every maximal run of alphabetic characters of a text is one of its words.
pub proof fn lemma_maximal_runs_are_words(s: Seq<char>, j: int, e: int)
    requires
        is_maximal_run(s, j, e),
    ensures
        words_of(s).contains(s.subrange(j, e)),
{
    lemma_partition(s);
    let sp = word_spans(s);
    let ws = words_of(s);
    assert(alphabetic(s[j]));
    assert(in_some_span(sp, j));
    let k = choose|k: int| 0 <= k < sp.len() && sp[k].0 <= j < #[trigger] sp[k].1;
    let (a, b) = sp[k];
    if a < j {
        assert(in_some_span(sp, j - 1));
        assert(!alphabetic(s[j - 1]));
    }
    if b < e {
        assert(alphabetic(s[b]));
    }
    if e < b {
        assert(in_some_span(sp, e));
        assert(!alphabetic(s[e]));
    }
    assert(ws[k] == s.subrange(j, e));
}

/// Scans one text for words, one word per call of `next_word`.
pub struct Matcher {
    chars: Vec<char>,
    index: usize,
    start: usize,
}

impl Matcher {
    /// The characters being scanned.
    pub closed spec fn source(&self) -> Seq<char> {
        self.chars@
    }

    /// The words that the following calls of `next_word` return, in order.
    pub open spec fn pending(&self) -> Seq<Seq<char>> {
        words_out(self.source(), self.position())
    }

    /// The scan position, in characters.
    pub closed spec fn position(&self) -> int {
        self.index as int
    }

    /// Where the current word began.
    pub closed spec fn saved(&self) -> int {
        self.start as int
    }

    /// The saved start and the scan position lie within the text, in order.
    pub open spec fn wf(&self) -> bool {
        0 <= self.saved() <= self.position() <= self.source().len()
    }

    /// The scan position does not lie strictly inside a run of alphabetic
    /// characters.
    pub open spec fn at_boundary(&self) -> bool {
        let s = self.source();
        let i = self.position();
        i == 0 || i == s.len() || !alphabetic(s[i - 1]) || !alphabetic(s[i])
    }

    /// A scanner at the start of `input`.
    pub fn new(input: &str) -> (m: Matcher)
        ensures
            m.wf(),
            m.source() == input@,
            m.position() == 0,
            m.saved() == 0,
            m.at_boundary(),
            m.pending() == words_of(input@),
    {
        broadcast use vstd::string::group_string_axioms, vstd::string::next_postcondition;
        let mut chars: Vec<char> = Vec::new();
        let mut it = input.chars();
        loop
            invariant
                chars@ + it.remaining() == input@,
                it.decrease() is Some,
            ensures
                chars@ == input@,
            decreases it.decrease()->0,
        {
            match it.next() {
                Some(c) => chars.push(c),
                None => {
                    assert(chars@ =~= input@);
                    break;
                },
            }
        }
        Matcher { chars, index: 0, start: 0 }
    }

    /// Marks the scan position as the start of the current word.
    pub fn save(&mut self)
        requires
            old(self).wf(),
        ensures
            final(self).wf(),
            final(self).source() == old(self).source(),
            final(self).position() == old(self).position(),
            final(self).saved() == old(self).position(),
    {
        self.start = self.index;
    }

    /// The character at the scan position, if any is left.
    pub fn peek(&self) -> (r: Option<char>)
        requires
            self.wf(),
        ensures
            r == (if self.position() < self.source().len() {
                Some(self.source()[self.position()])
            } else {
                None::<char>
            }),
    {
        if self.index < self.chars.len() {
            Some(self.chars[self.index])
        } else {
            None
        }
    }

    /// Moves past the character at the scan position, if any is left, and returns it.
    pub fn advance(&mut self) -> (r: Option<char>)
        requires
            old(self).wf(),
        ensures
            final(self).wf(),
            final(self).source() == old(self).source(),
            final(self).saved() == old(self).saved(),
            old(self).position() < old(self).source().len() ==> r == Some(
                old(self).source()[old(self).position()],
            ) && final(self).position() == old(self).position() + 1,
            old(self).position() >= old(self).source().len() ==> r is None && final(self).position()
                == old(self).position(),
    {
        if self.index < self.chars.len() {
            let c = self.chars[self.index];
            self.index = self.index + 1;
            Some(c)
        } else {
            None
        }
    }

    /// Moves past the run of non-alphabetic characters at the scan position.
    pub fn skip(&mut self)
        requires
            old(self).wf(),
        ensures
            final(self).wf(),
            final(self).source() == old(self).source(),
            final(self).saved() == old(self).saved(),
            old(self).position() <= final(self).position(),
            forall|k: int|
                old(self).position() <= k < final(self).position() ==> !alphabetic(
                    #[trigger] final(self).source()[k],
                ),
            final(self).position() == final(self).source().len() || alphabetic(
                final(self).source()[final(self).position()],
            ),
            final(self).pending() == old(self).pending(),
    {
        let ghost s = self.chars@;
        let ghost i0 = self.index as int;
        loop
            invariant
                self.wf(),
                self.chars@ == s,
                self.chars@ == old(self).chars@,
                self.start == old(self).start,
                i0 <= self.index,
                forall|k: int| i0 <= k < self.index ==> !alphabetic(#[trigger] s[k]),
                words_out(s, self.index as int) == words_out(s, i0),
            ensures
                self.wf(),
                self.chars@ == old(self).chars@,
                self.start == old(self).start,
                i0 <= self.index,
                forall|k: int| i0 <= k < self.index ==> !alphabetic(#[trigger] s[k]),
                words_out(s, self.index as int) == words_out(s, i0),
                self.index == s.len() || alphabetic(s[self.index as int]),
            decreases s.len() - self.index,
        {
            match self.peek() {
                Some(c) => {
                    if !word(&c) {
                        self.advance();
                    } else {
                        break;
                    }
                },
                None => break,
            }
        }
    }

    /// Moves past the run of alphabetic characters at the scan position and
    /// returns the word from the saved start to the new position.
    pub fn word(&mut self) -> (r: String)
        requires
            old(self).wf(),
        ensures
            final(self).wf(),
            final(self).source() == old(self).source(),
            final(self).saved() == old(self).saved(),
            old(self).position() <= final(self).position(),
            forall|k: int|
                old(self).position() <= k < final(self).position() ==> alphabetic(
                    #[trigger] final(self).source()[k],
                ),
            (forall|k: int|
                old(self).saved() <= k < old(self).position() ==> alphabetic(
                    #[trigger] old(self).source()[k],
                )) ==> (forall|k: int|
                final(self).saved() <= k < final(self).position() ==> alphabetic(
                    #[trigger] final(self).source()[k],
                )),
            final(self).position() == final(self).source().len() || !alphabetic(
                final(self).source()[final(self).position()],
            ),
            r@ == final(self).source().subrange(final(self).saved(), final(self).position()),
            words_in(old(self).source(), old(self).saved(), old(self).position()) == seq![r@]
                + final(self).pending(),
    {
        let ghost s = self.chars@;
        let ghost i0 = self.index as int;
        loop
            invariant
                self.wf(),
                self.chars@ == s,
                self.chars@ == old(self).chars@,
                self.start == old(self).start,
                i0 <= self.index,
                forall|k: int| i0 <= k < self.index ==> alphabetic(#[trigger] s[k]),
                words_in(s, self.start as int, self.index as int) == words_in(
                    s,
                    self.start as int,
                    i0,
                ),
            ensures
                self.wf(),
                self.chars@ == old(self).chars@,
                self.start == old(self).start,
                i0 <= self.index,
                forall|k: int| i0 <= k < self.index ==> alphabetic(#[trigger] s[k]),
                words_in(s, self.start as int, self.index as int) == words_in(
                    s,
                    self.start as int,
                    i0,
                ),
                self.index == s.len() || !alphabetic(s[self.index as int]),
            decreases s.len() - self.index,
        {
            match self.peek() {
                Some(c) => {
                    if word(&c) {
                        self.advance();
                    } else {
                        break;
                    }
                },
                None => break,
            }
        }
        let mut w = String::new();
        let mut k: usize = self.start;
        while k < self.index
            invariant
                self.wf(),
                self.chars@ == s,
                self.start <= k <= self.index,
                w@ == s.subrange(self.start as int, k as int),
            decreases self.index - k,
        {
            push_char(&mut w, self.chars[k]);
            k = k + 1;
            assert(w@ =~= s.subrange(self.start as int, k as int));
        }
        w
    }

    /// The next word of the text, or `None` once no word is left.
    pub fn next_word(&mut self) -> (r: Option<String>)
        requires
            old(self).wf(),
        ensures
            final(self).wf(),
            final(self).source() == old(self).source(),
            old(self).position() <= final(self).position(),
            r is Some ==> old(self).position() < final(self).position(),
            old(self).position() <= final(self).saved(),
            forall|k: int|
                old(self).position() <= k < final(self).saved() ==> !alphabetic(
                    #[trigger] final(self).source()[k],
                ),
            final(self).at_boundary(),
            match r {
                Some(w) => {
                    &&& w@ == final(self).source().subrange(
                        final(self).saved(),
                        final(self).position(),
                    )
                    &&& final(self).saved() < final(self).position()
                    &&& forall|k: int|
                        final(self).saved() <= k < final(self).position() ==> alphabetic(
                            #[trigger] final(self).source()[k],
                        )
                    &&& final(self).position() == final(self).source().len() || !alphabetic(
                        final(self).source()[final(self).position()],
                    )
                    &&& old(self).at_boundary() ==> final(self).saved() == 0 || !alphabetic(
                        final(self).source()[final(self).saved() - 1],
                    )
                },
                None => {
                    &&& forall|k: int|
                        old(self).position() <= k < final(self).source().len() ==> !alphabetic(
                            #[trigger] final(self).source()[k],
                        )
                    &&& final(self).saved() == final(self).position()
                },
            },
            match r {
                Some(w) => old(self).pending() == seq![w@] + final(self).pending(),
                None => old(self).pending() == Seq::<Seq<char>>::empty() && final(self).pending()
                    == Seq::<Seq<char>>::empty() && final(self).position()
                    == final(self).source().len(),
            },
    {
        self.skip();
        self.save();
        if self.peek().is_some() {
            Some(self.word())
        } else {
            None
        }
    }
}

} // verus!
