//! A dictionary trie for encoding phone numbers as words: every letter maps
//! to a fixed keypad digit, a word is filed under its digit sequence, and a
//! lookup walks a digit sequence collecting the words filed along it.

use vstd::prelude::*;
use vstd::string::{StrSliceExecFns, StringExecFns};

use crate::fizzbuzz::{spec_digits, u64_to_text};

verus! {

/// The keypad digit of a letter, either case; anything else has none.
pub open spec fn spec_letter_digit(c: char) -> Option<u8> {
    match c {
        'e' | 'E' => Some(0u8),
        'j' | 'n' | 'q' | 'J' | 'N' | 'Q' => Some(1u8),
        'r' | 'w' | 'x' | 'R' | 'W' | 'X' => Some(2u8),
        'd' | 's' | 'y' | 'D' | 'S' | 'Y' => Some(3u8),
        'f' | 't' | 'F' | 'T' => Some(4u8),
        'a' | 'm' | 'A' | 'M' => Some(5u8),
        'c' | 'i' | 'v' | 'C' | 'I' | 'V' => Some(6u8),
        'b' | 'k' | 'u' | 'B' | 'K' | 'U' => Some(7u8),
        'l' | 'o' | 'p' | 'L' | 'O' | 'P' => Some(8u8),
        'g' | 'h' | 'z' | 'G' | 'H' | 'Z' => Some(9u8),
        _ => None,
    }
}

/// The value of a decimal digit character; anything else has none.
pub open spec fn spec_char_digit(c: char) -> Option<u8> {
    match c {
        '0' => Some(0u8),
        '1' => Some(1u8),
        '2' => Some(2u8),
        '3' => Some(3u8),
        '4' => Some(4u8),
        '5' => Some(5u8),
        '6' => Some(6u8),
        '7' => Some(7u8),
        '8' => Some(8u8),
        '9' => Some(9u8),
        _ => None,
    }
}

/// The keypad digits of the letters of `s` from position `i` on; other
/// characters contribute nothing.
pub open spec fn spec_word_digits_from(s: Seq<char>, i: int) -> Seq<u8>
    decreases s.len() - i,
{
    if i < 0 || i >= s.len() {
        Seq::empty()
    } else {
        (match spec_letter_digit(s[i]) {
            Some(d) => seq![d],
            None => Seq::empty(),
        }) + spec_word_digits_from(s, i + 1)
    }
}

/// The keypad digits of the letters of a word.
pub open spec fn spec_word_digits(s: Seq<char>) -> Seq<u8> {
    spec_word_digits_from(s, 0)
}

/// The decimal digits occurring in `s` from position `i` on.
pub open spec fn spec_number_digits_from(s: Seq<char>, i: int) -> Seq<u8>
    decreases s.len() - i,
{
    if i < 0 || i >= s.len() {
        Seq::empty()
    } else {
        (match spec_char_digit(s[i]) {
            Some(d) => seq![d],
            None => Seq::empty(),
        }) + spec_number_digits_from(s, i + 1)
    }
}

/// The decimal digits occurring in a phone number's text.
pub open spec fn spec_number_digits(s: Seq<char>) -> Seq<u8> {
    spec_number_digits_from(s, 0)
}

/// The keypad digit of one letter.
pub fn letter_digit(c: char) -> (r: Option<u8>)
    ensures
        r == spec_letter_digit(c),
{
    match c {
        'e' | 'E' => Some(0),
        'j' | 'n' | 'q' | 'J' | 'N' | 'Q' => Some(1),
        'r' | 'w' | 'x' | 'R' | 'W' | 'X' => Some(2),
        'd' | 's' | 'y' | 'D' | 'S' | 'Y' => Some(3),
        'f' | 't' | 'F' | 'T' => Some(4),
        'a' | 'm' | 'A' | 'M' => Some(5),
        'c' | 'i' | 'v' | 'C' | 'I' | 'V' => Some(6),
        'b' | 'k' | 'u' | 'B' | 'K' | 'U' => Some(7),
        'l' | 'o' | 'p' | 'L' | 'O' | 'P' => Some(8),
        'g' | 'h' | 'z' | 'G' | 'H' | 'Z' => Some(9),
        _ => None,
    }
}

/// The value of one decimal digit character.
pub fn char_digit(c: char) -> (r: Option<u8>)
    ensures
        r == spec_char_digit(c),
{
    match c {
        '0' => Some(0),
        '1' => Some(1),
        '2' => Some(2),
        '3' => Some(3),
        '4' => Some(4),
        '5' => Some(5),
        '6' => Some(6),
        '7' => Some(7),
        '8' => Some(8),
        '9' => Some(9),
        _ => None,
    }
}

/// The keypad digits of a word's letters, in order.
pub fn word_digits(word: &str) -> (r: Vec<u8>)
    ensures
        r@ == spec_word_digits(word@),
        forall|i: int| 0 <= i < r@.len() ==> r@[i] < 10,
{
    let n = word.unicode_len();
    let mut out: Vec<u8> = Vec::new();
    for i in 0..n
        invariant
            n == word@.len(),
            out@ + spec_word_digits_from(word@, i as int) == spec_word_digits(word@),
            forall|j: int| 0 <= j < out@.len() ==> out@[j] < 10,
    {
        let c = word.get_char(i);
        match letter_digit(c) {
            Some(d) => {
                out.push(d);
                proof {
                    assert(out@ + spec_word_digits_from(word@, i + 1) =~= spec_word_digits(
                        word@));
                }
            },
            None => {
                proof {
                    assert(out@ + spec_word_digits_from(word@, i + 1) =~= out@
                        + spec_word_digits_from(word@, i as int));
                }
            },
        }
    }
    proof {
        assert(out@ =~= out@ + spec_word_digits_from(word@, n as int));
    }
    out
}

/// The decimal digits of a phone number's text, in order; punctuation is
/// passed over.
pub fn number_digits(phone: &str) -> (r: Vec<u8>)
    ensures
        r@ == spec_number_digits(phone@),
        forall|i: int| 0 <= i < r@.len() ==> r@[i] < 10,
{
    let n = phone.unicode_len();
    let mut out: Vec<u8> = Vec::new();
    for i in 0..n
        invariant
            n == phone@.len(),
            out@ + spec_number_digits_from(phone@, i as int) == spec_number_digits(phone@),
            forall|j: int| 0 <= j < out@.len() ==> out@[j] < 10,
    {
        let c = phone.get_char(i);
        match char_digit(c) {
            Some(d) => {
                out.push(d);
                proof {
                    assert(out@ + spec_number_digits_from(phone@, i + 1) =~= spec_number_digits(
                        phone@));
                }
            },
            None => {
                proof {
                    assert(out@ + spec_number_digits_from(phone@, i + 1) =~= out@
                        + spec_number_digits_from(phone@, i as int));
                }
            },
        }
    }
    proof {
        assert(out@ =~= out@ + spec_number_digits_from(phone@, n as int));
    }
    out
}

/// A dictionary word together with how many keypad digits it covers.
pub struct WordInfo {
    pub word: String,
    pub canonized_length: usize,
}

/// A word as its text and covered digit count.
pub open spec fn word_info_view(w: WordInfo) -> (Seq<char>, nat) {
    (w.word@, w.canonized_length as nat)
}

impl Clone for WordInfo {
    fn clone(&self) -> (r: Self)
        ensures
            word_info_view(r) == word_info_view(*self),
    {
        WordInfo { word: self.word.clone(), canonized_length: self.canonized_length }
    }
}

/// A ten-way trie over keypad digits; every node files the words whose digit
/// sequence is the path that leads to it.
pub struct PhoneTrie {
    children: Vec<Option<PhoneTrie>>,
    words: Vec<WordInfo>,
}

/// Sequences with equal heads and equal tails are equal.
proof fn lemma_cons_eq(p: Seq<u8>, q: Seq<u8>)
    requires
        p.len() != 0,
        q.len() != 0,
        p[0] == q[0],
        p.drop_first() == q.drop_first(),
    ensures
        p == q,
{
    assert(p.drop_first().len() == p.len() - 1);
    assert(q.drop_first().len() == q.len() - 1);
    assert(p.len() == q.len());
    assert forall|j: int| 0 <= j < p.len() implies p[j] == q[j] by {
        if j > 0 {
            assert(p.drop_first()[j - 1] == p[(j - 1) + 1]);
            assert(q.drop_first()[j - 1] == q[(j - 1) + 1]);
        }
    }
    assert(p =~= q);
}

impl PhoneTrie {
    /// Every node has one child slot per digit.
    pub closed spec fn wf(&self) -> bool
        decreases *self,
    {
        &&& self.children@.len() == 10
        &&& forall|i: int|
            0 <= i < 10 ==> ((#[trigger] self.children[i]) matches Some(c) ==> c.wf())
    }

    /// The words filed at this node.
    pub closed spec fn own_words(&self) -> Seq<(Seq<char>, nat)> {
        self.words@.map_values(|w: WordInfo| word_info_view(w))
    }

    /// The words filed at the end of `path` below this node.
    pub closed spec fn words_at(&self, path: Seq<u8>) -> Seq<(Seq<char>, nat)>
        decreases path.len(),
    {
        if path.len() == 0 {
            self.own_words()
        } else {
            let d = path[0] as int;
            if d < self.children@.len() {
                match self.children[d] {
                    Some(c) => c.words_at(path.drop_first()),
                    None => Seq::empty(),
                }
            } else {
                Seq::empty()
            }
        }
    }

    /// The words filed at this node and at every node along `path` below it.
    pub closed spec fn words_along(&self, path: Seq<u8>) -> Seq<(Seq<char>, nat)>
        decreases path.len(),
    {
        self.own_words() + if path.len() == 0 {
            Seq::empty()
        } else {
            let d = path[0] as int;
            if d < self.children@.len() {
                match self.children[d] {
                    Some(c) => c.words_along(path.drop_first()),
                    None => Seq::empty(),
                }
            } else {
                Seq::empty()
            }
        }
    }

    /// A trie with no words.
    pub fn empty() -> (r: Self)
        ensures
            r.wf(),
            forall|p: Seq<u8>| r.words_at(p) == Seq::<(Seq<char>, nat)>::empty(),
    {
        let mut children: Vec<Option<PhoneTrie>> = Vec::new();
        for _i in 0..10
            invariant
            children@.len() == _i,
            forall|j: int| 0 <= j < _i ==> (#[trigger] children[j]) is None,
        {
            children.push(None);
        }
        let r = PhoneTrie { children, words: Vec::new() };
        proof {
            assert forall|p: Seq<u8>| r.words_at(p) == Seq::<(Seq<char>, nat)>::empty() by {
                if p.len() == 0 {
                    assert(r.own_words() =~= Seq::<(Seq<char>, nat)>::empty());
                }
            }
        }
        r
    }

    /// Files `word` under the digit path `digits[depth..]`; `canonized_length`
    /// records the full digit count of the word.
    pub fn put_word(&mut self, word: String, digits: &[u8], depth: usize)
        requires
            old(self).wf(),
            depth <= digits@.len(),
            forall|i: int| 0 <= i < digits@.len() ==> digits@[i] < 10,
        ensures
            final(self).wf(),
            final(self).words_at(digits@.skip(depth as int)) == old(self).words_at(
                digits@.skip(depth as int)).push((word@, digits@.len() as nat)),
            forall|p: Seq<u8>|
                p != digits@.skip(depth as int) ==> final(self).words_at(p) == old(self).words_at(
                    p),
        decreases digits@.len() - depth,
    {
        let ghost target = digits@.skip(depth as int);
        if depth == digits.len() {
            let ghost w = word@;
            self.words.push(WordInfo { word, canonized_length: digits.len() });
            proof {
                assert(target =~= Seq::<u8>::empty());
                assert(self.own_words() =~= old(self).own_words().push(
                    (w, digits@.len() as nat)));
                assert forall|p: Seq<u8>|
                    p != target implies self.words_at(p) == old(self).words_at(p) by {
                    if p.len() == 0 {
                        assert(p =~= target);
                    } else {
                        assert(self.children@ == old(self).children@);
                    }
                }
            }
        } else {
            let idx = digits[depth] as usize;
            let removed = self.children.remove(idx);
            let mut child = match removed {
                Some(c) => c,
                None => PhoneTrie::empty(),
            };
            let ghost child0 = child;
            child.put_word(word, digits, depth + 1);
            self.children.insert(idx, Some(child));
            proof {
                let ghost rest = digits@.skip(depth as int + 1);
                assert(self.children@ =~= old(self).children@.update(idx as int, Some(child)));
                assert(target.drop_first() =~= rest);
                assert(target[0] == digits@[depth as int]);
                if removed is None {
                    assert forall|q: Seq<u8>|
                        q != rest implies child.words_at(q) == Seq::<(Seq<char>, nat)>::empty() by {
                        assert(child.words_at(q) == child0.words_at(q));
                    }
                    assert(child0.words_at(rest) == Seq::<(Seq<char>, nat)>::empty());
                    assert forall|p: Seq<u8>|
                        p != target implies self.words_at(p) == old(self).words_at(p) by {
                        if p.len() != 0 && p[0] as int == idx {
                            assert(old(self).words_at(p) == Seq::<(Seq<char>, nat)>::empty());
                            assert(self.words_at(p) == child.words_at(p.drop_first()));
                            assert(p.drop_first() != rest) by {
                                if p.drop_first() == rest {
                                    assert(p[0] == target[0]);
                                    lemma_cons_eq(p, target);
                                }
                            }
                        }
                    }
                } else {
                    assert forall|p: Seq<u8>|
                        p != target implies self.words_at(p) == old(self).words_at(p) by {
                        if p.len() != 0 && p[0] as int == idx {
                            assert(self.words_at(p) == child.words_at(p.drop_first()));
                            assert(old(self).words_at(p) == child0.words_at(p.drop_first()));
                            assert(p.drop_first() != rest) by {
                                if p.drop_first() == rest {
                                    assert(p[0] == target[0]);
                                    lemma_cons_eq(p, target);
                                }
                            }
                        }
                    }
                }
                assert(self.words_at(target) == child.words_at(rest));
                assert(old(self).words_at(target) == child0.words_at(rest));
            }
        }
    }

    /// Collects, after whatever `words` already holds, every word filed at
    /// this node or along the digit path `phone[depth..]` below it.
    pub fn get_words(&self, phone: &[u8], depth: usize, words: &mut Vec<WordInfo>)
        requires
            self.wf(),
            depth <= phone@.len(),
            forall|i: int| 0 <= i < phone@.len() ==> phone@[i] < 10,
        ensures
            final(words)@.len() == old(words)@.len() + self.words_along(
                phone@.skip(depth as int)).len(),
            forall|k: int| 0 <= k < old(words)@.len() ==> final(words)@[k] == old(words)@[k],
            forall|k: int|
                0 <= k < self.words_along(phone@.skip(depth as int)).len()
                    ==> word_info_view(#[trigger] final(words)@[old(words)@.len() + k])
                    == self.words_along(phone@.skip(depth as int))[k],
        decreases phone@.len() - depth,
    {
        let ghost path = phone@.skip(depth as int);
        let ghost base_len = old(words)@.len() as int;
        let n = self.words.len();
        for i in 0..n
            invariant
                n == self.words@.len(),
                words@.len() == base_len + i,
                base_len == old(words)@.len(),
                forall|k: int| 0 <= k < base_len ==> words@[k] == old(words)@[k],
                forall|k: int|
                    0 <= k < i ==> word_info_view(#[trigger] words@[base_len + k])
                        == self.own_words()[k],
        {
            let w = self.words[i].clone();
            proof {
                assert(word_info_view(w) == self.own_words()[i as int]);
            }
            words.push(w);
        }
        let ghost mid = words@;
        proof {
            assert(self.words_along(path) == self.own_words() + if path.len() == 0 {
                Seq::<(Seq<char>, nat)>::empty()
            } else {
                let d = path[0] as int;
                if d < self.children@.len() {
                    match self.children[d] {
                        Some(c) => c.words_along(path.drop_first()),
                        None => Seq::<(Seq<char>, nat)>::empty(),
                    }
                } else {
                    Seq::<(Seq<char>, nat)>::empty()
                }
            });
        }
        if depth < phone.len() {
            let d = phone[depth] as usize;
            match &self.children[d] {
                Some(c) => {
                    c.get_words(phone, depth + 1, words);
                    proof {
                        let rest = phone@.skip(depth as int + 1);
                        assert(path.drop_first() =~= rest);
                        let along = self.words_along(path);
                        let ow = self.own_words();
                        assert(along =~= ow + c.words_along(rest));
                        assert forall|k: int|
                            0 <= k < along.len() implies word_info_view(
                            #[trigger] words@[base_len + k]) == along[k] by {
                            if k < ow.len() {
                                assert(words@[base_len + k] == mid[base_len + k]);
                                assert(along[k] == ow[k]);
                            } else {
                                assert(words@[base_len + k] == words@[mid.len() + (k - ow.len())]);
                                assert(along[k] == c.words_along(rest)[k - ow.len()]);
                            }
                        }
                    }
                },
                None => {
                    proof {
                        assert(self.words_along(path) =~= self.own_words());
                    }
                },
            }
        } else {
            proof {
                assert(path =~= Seq::<u8>::empty());
                assert(self.words_along(path) =~= self.own_words());
            }
        }
    }
}

impl Default for PhoneTrie {
    /// A trie with no words.
    fn default() -> (r: Self)
        ensures
            r.wf(),
            forall|p: Seq<u8>| r.words_at(p) == Seq::<(Seq<char>, nat)>::empty(),
    {
        PhoneTrie::empty()
    }
}


/// An option table as plain values: one row per digit position, each row the
/// words usable there with their covered digit counts.
pub open spec fn table_view(table: Seq<Vec<WordInfo>>) -> Seq<Seq<(Seq<char>, nat)>> {
    table.map_values(|row: Vec<WordInfo>| row@.map_values(|w: WordInfo| word_info_view(w)))
}

/// Puts one token, preceded by a space, at the front of every line.
pub open spec fn spec_prepend_token(t: Seq<char>, lines: Seq<Seq<char>>) -> Seq<Seq<char>> {
    lines.map_values(|l: Seq<char>| seq![' '] + t + l)
}

/// The tail of every report line for `digits[index..]`: each is one way of
/// covering the remaining positions, written as space-separated tokens. A
/// fully covered suffix yields one empty tail; a position with usable words
/// branches on them; a position with none may be spelled as its bare digit,
/// unless the position before was already spelled so.
pub open spec fn spec_encoding_tails(
    table: Seq<Seq<(Seq<char>, nat)>>,
    digits: Seq<u8>,
    index: int,
    can_skip: bool,
) -> Seq<Seq<char>>
    decreases table.len() - index, 1int, 0int,
{
    if index == table.len() {
        seq![Seq::<char>::empty()]
    } else if index < 0 || index > table.len() {
        Seq::empty()
    } else {
        spec_branch_tails(table, digits, index, 0) + if table[index].len() == 0 && can_skip {
            spec_prepend_token(
                spec_digits(digits[index] as nat),
                spec_encoding_tails(table, digits, index + 1, false),
            )
        } else {
            Seq::empty()
        }
    }
}

/// The report-line tails that start with one of the words of row `index`,
/// from the word at position `j` on.
pub open spec fn spec_branch_tails(
    table: Seq<Seq<(Seq<char>, nat)>>,
    digits: Seq<u8>,
    index: int,
    j: int,
) -> Seq<Seq<char>>
    decreases table.len() - index, 0int, table[index].len() - j,
{
    if !(0 <= index < table.len()) || !(0 <= j < table[index].len()) {
        Seq::empty()
    } else {
        let wt = table[index][j];
        (if 1 <= wt.1 && index + wt.1 <= table.len() {
            spec_prepend_token(
                wt.0,
                spec_encoding_tails(table, digits, index + wt.1 as int, true),
            )
        } else {
            Seq::empty()
        }) + spec_branch_tails(table, digits, index, j + 1)
    }
}

/// The tails of the report lines for `digits[index..]`, as strings.
fn encoding_tails(table: &Vec<Vec<WordInfo>>, digits: &Vec<u8>, index: usize, can_skip: bool) -> (r:
    Vec<String>)
    requires
        table@.len() == digits@.len(),
        index <= table@.len(),
    ensures
        r@.len() == spec_encoding_tails(table_view(table@), digits@, index as int, can_skip).len(),
        forall|k: int|
            0 <= k < r@.len() ==> (#[trigger] r@[k])@ == spec_encoding_tails(
                table_view(table@), digits@, index as int, can_skip)[k],
    decreases table@.len() - index,
{
    let ghost tv = table_view(table@);
    let ghost spec_r = spec_encoding_tails(tv, digits@, index as int, can_skip);
    let mut out: Vec<String> = Vec::new();
    if index == table.len() {
        out.push(String::new());
        proof {
            assert(spec_r =~= seq![Seq::<char>::empty()]);
        }
        return out;
    }
    proof {
        assert(tv[index as int] == table@[index as int]@.map_values(
            |w: WordInfo| word_info_view(w)));
    }
    let ghost mut done: Seq<Seq<char>> = Seq::empty();
    let n = table[index].len();
    for j in 0..n
        invariant
            table@.len() == digits@.len(),
            index < table@.len(),
            tv == table_view(table@),
            n == tv[index as int].len(),
            n == table@[index as int]@.len(),
            out@.len() == done.len(),
            forall|k: int| 0 <= k < out@.len() ==> (#[trigger] out@[k])@ == done[k],
            done + spec_branch_tails(tv, digits@, index as int, j as int) == spec_branch_tails(
                tv, digits@, index as int, 0),
        decreases table@.len() - index, 1int, n - j,
    {
        let ghost wt = tv[index as int][j as int];
        proof {
            assert(wt == word_info_view(table@[index as int]@[j as int]));
        }
        let cl = table[index][j].canonized_length;
        let ghost branch = if 1 <= wt.1 && index as int + wt.1 <= tv.len() {
            spec_prepend_token(wt.0, spec_encoding_tails(tv, digits@, index as int + wt.1 as int,
                true))
        } else {
            Seq::<Seq<char>>::empty()
        };
        proof {
            assert(spec_branch_tails(tv, digits@, index as int, j as int) == branch
                + spec_branch_tails(tv, digits@, index as int, j + 1));
        }
        if 1 <= cl && cl <= table.len() - index {
            let subs = encoding_tails(table, digits, index + cl, true);
            let m = subs.len();
            let ghost base = out@.len() as int;
            proof {
                assert(branch.len() == m);
            }
            for si in 0..m
                invariant
                    index < table@.len(),
                    n == table@[index as int]@.len(),
                    j < n,
                    wt == word_info_view(table@[index as int]@[j as int]),
                    1 <= wt.1,
                    index as int + wt.1 <= tv.len(),
                    branch == spec_prepend_token(wt.0, spec_encoding_tails(tv, digits@,
                        index as int + wt.1 as int, true)),
                    m == spec_encoding_tails(tv, digits@, index as int + wt.1 as int, true).len(),
                    m == subs@.len(),
                    forall|k: int|
                        0 <= k < m ==> (#[trigger] subs@[k])@ == spec_encoding_tails(tv, digits@,
                            index as int + wt.1 as int, true)[k],
                    base == done.len(),
                    out@.len() == base + si,
                    forall|k: int| 0 <= k < base ==> (#[trigger] out@[k])@ == done[k],
                    forall|k: int|
                        0 <= k < si ==> (#[trigger] out@[base + k])@ == branch[k],
            {
                let mut line = String::new();
                line.append(" ");
                line.append(table[index][j].word.as_str());
                line.append(subs[si].as_str());
                proof {
                    reveal_strlit(" ");
                    assert(" "@ =~= seq![' ']);
                    assert(subs@[si as int]@ == spec_encoding_tails(tv, digits@,
                        index as int + wt.1 as int, true)[si as int]);
                    assert(line@ =~= seq![' '] + wt.0 + subs@[si as int]@);
                    assert(branch[si as int] == seq![' '] + wt.0 + spec_encoding_tails(tv,
                        digits@, index as int + wt.1 as int, true)[si as int]);
                }
                out.push(line);
            }
            proof {
                let done2 = done + branch;
                assert forall|k: int|
                    0 <= k < out@.len() implies (#[trigger] out@[k])@ == done2[k] by {
                    if base <= k {
                        assert(out@[base + (k - base)]@ == branch[k - base]);
                        assert(done2[k] == branch[k - base]);
                    }
                }
                assert(done2 + spec_branch_tails(tv, digits@, index as int, j + 1)
                    =~= done + (branch + spec_branch_tails(tv, digits@, index as int, j + 1)));
                done = done2;
            }
        } else {
            proof {
                assert(branch =~= Seq::<Seq<char>>::empty());
                assert(done + spec_branch_tails(tv, digits@, index as int, j + 1)
                    =~= done + (branch + spec_branch_tails(tv, digits@, index as int, j + 1)));
            }
        }
    }
    proof {
        assert(spec_branch_tails(tv, digits@, index as int, n as int)
            =~= Seq::<Seq<char>>::empty());
        assert(done =~= done + spec_branch_tails(tv, digits@, index as int, n as int));
    }
    if table[index].is_empty() && can_skip {
        let subs = encoding_tails(table, digits, index + 1, false);
        let dtext = u64_to_text(digits[index] as u64);
        let ghost skip_part = spec_prepend_token(spec_digits(digits@[index as int] as nat),
            spec_encoding_tails(tv, digits@, index as int + 1, false));
        let m = subs.len();
        let ghost base = out@.len() as int;
        proof {
            assert(skip_part.len() == m);
        }
        for si in 0..m
            invariant
                index < table@.len() == digits@.len(),
                dtext@ == spec_digits(digits@[index as int] as nat),
                skip_part == spec_prepend_token(spec_digits(digits@[index as int] as nat),
                    spec_encoding_tails(tv, digits@, index as int + 1, false)),
                m == spec_encoding_tails(tv, digits@, index as int + 1, false).len(),
                m == subs@.len(),
                forall|k: int|
                    0 <= k < m ==> (#[trigger] subs@[k])@ == spec_encoding_tails(tv, digits@,
                        index as int + 1, false)[k],
                base == done.len(),
                out@.len() == base + si,
                forall|k: int| 0 <= k < base ==> (#[trigger] out@[k])@ == done[k],
                forall|k: int| 0 <= k < si ==> (#[trigger] out@[base + k])@ == skip_part[k],
        {
            let mut line = String::new();
            line.append(" ");
            line.append(dtext.as_str());
            line.append(subs[si].as_str());
            proof {
                reveal_strlit(" ");
                assert(" "@ =~= seq![' ']);
                assert(subs@[si as int]@ == spec_encoding_tails(tv, digits@, index as int + 1,
                    false)[si as int]);
                assert(line@ =~= seq![' '] + spec_digits(digits@[index as int] as nat)
                    + subs@[si as int]@);
                assert(skip_part[si as int] == seq![' '] + spec_digits(
                    digits@[index as int] as nat) + spec_encoding_tails(tv, digits@,
                    index as int + 1, false)[si as int]);
            }
            out.push(line);
        }
        proof {
            let done2 = done + skip_part;
            assert forall|k: int|
                0 <= k < out@.len() implies (#[trigger] out@[k])@ == done2[k] by {
                if base <= k {
                    assert(out@[base + (k - base)]@ == skip_part[k - base]);
                    assert(done2[k] == skip_part[k - base]);
                }
            }
            assert(spec_r == spec_branch_tails(tv, digits@, index as int, 0) + skip_part);
            assert(done2 =~= spec_r);
            done = done2;
        }
    } else {
        proof {
            assert(spec_r =~= spec_branch_tails(tv, digits@, index as int, 0));
        }
    }
    out
}

/// Every line of the report for one phone number: the number's text, a
/// colon, then one way of writing its digits as dictionary words, each token
/// preceded by a space; digits with no word may stand for themselves, never
/// two in a row.
pub fn encoding_lines(phone_text: &str, table: &Vec<Vec<WordInfo>>, digits: &Vec<u8>) -> (r: Vec<
    String>)
    requires
        table@.len() == digits@.len(),
    ensures
        r@.len() == spec_encoding_tails(table_view(table@), digits@, 0, true).len(),
        forall|k: int|
            0 <= k < r@.len() ==> (#[trigger] r@[k])@ == phone_text@ + seq![':']
                + spec_encoding_tails(table_view(table@), digits@, 0, true)[k],
{
    let tails = encoding_tails(table, digits, 0, true);
    let mut out: Vec<String> = Vec::new();
    let m = tails.len();
    for si in 0..m
        invariant
            m == tails@.len(),
            m == spec_encoding_tails(table_view(table@), digits@, 0, true).len(),
            forall|k: int|
                0 <= k < m ==> (#[trigger] tails@[k])@ == spec_encoding_tails(
                    table_view(table@), digits@, 0, true)[k],
            out@.len() == si,
            forall|k: int|
                0 <= k < si ==> (#[trigger] out@[k])@ == phone_text@ + seq![':']
                    + spec_encoding_tails(table_view(table@), digits@, 0, true)[k],
    {
        let mut line = phone_text.to_owned();
        line.append(":");
        line.append(tails[si].as_str());
        proof {
            reveal_strlit(":");
            assert(":"@ =~= seq![':']);
            assert(line@ == phone_text@ + seq![':'] + tails@[si as int]@);
        }
        out.push(line);
    }
    out
}

/// The whole report for one phone number against a dictionary: every line
/// writes the number, a colon, and one way of covering its digits with
/// dictionary words, single digits standing in where no word fits, never two
/// in a row.
pub fn phone_report(encoder: &PhoneEncoder, phone_text: &str) -> (r: Vec<String>)
    requires
        encoder.wf(),
    ensures
        ({
            let digits = spec_number_digits(phone_text@);
            let table = Seq::new(digits.len() as nat, |i: int| encoder.words_along_from(digits, i));
            &&& r@.len() == spec_encoding_tails(table, digits, 0, true).len()
            &&& forall|k: int|
                0 <= k < r@.len() ==> (#[trigger] r@[k])@ == phone_text@ + seq![':']
                    + spec_encoding_tails(table, digits, 0, true)[k]
        }),
{
    let ghost sdigits = spec_number_digits(phone_text@);
    let ghost stable = Seq::new(sdigits.len() as nat, |i: int| encoder.words_along_from(
        sdigits, i));
    let digits = number_digits(phone_text);
    let mut table: Vec<Vec<WordInfo>> = Vec::new();
    let n = digits.len();
    for i in 0..n
        invariant
            encoder.wf(),
            digits@ == sdigits,
            n == digits@.len(),
            forall|k: int| 0 <= k < digits@.len() ==> digits@[k] < 10,
            table@.len() == i,
            forall|k: int|
                0 <= k < i ==> (#[trigger] table@[k])@.map_values(|w: WordInfo| word_info_view(w))
                    == encoder.words_along_from(sdigits, k),
    {
        table.push(encoder.words_from(digits.as_slice(), i));
    }
    proof {
        assert forall|k: int|
            0 <= k < n implies #[trigger] table_view(table@)[k] == stable[k] by {
            assert(table_view(table@)[k] == table@[k]@.map_values(
                |w: WordInfo| word_info_view(w)));
        }
        assert(table_view(table@) =~= stable);
    }
    encoding_lines(phone_text, &table, &digits)
}

/// A dictionary of words, filed by the keypad digits of their letters.
pub struct PhoneEncoder {
    phone_trie: PhoneTrie,
}

impl PhoneEncoder {
    /// The trie invariant holds.
    pub closed spec fn wf(&self) -> bool {
        self.phone_trie.wf()
    }

    /// The words filed under a digit path.
    pub closed spec fn words_at(&self, path: Seq<u8>) -> Seq<(Seq<char>, nat)> {
        self.phone_trie.words_at(path)
    }

    /// Files a word under the keypad digits of its letters.
    pub fn put_word(&mut self, word: String)
        requires
            old(self).wf(),
        ensures
            final(self).wf(),
            final(self).words_at(spec_word_digits(word@)) == old(self).words_at(
                spec_word_digits(word@)).push((word@, spec_word_digits(word@).len())),
            forall|p: Seq<u8>|
                p != spec_word_digits(word@) ==> final(self).words_at(p) == old(self).words_at(p),
    {
        let digits = word_digits(word.as_str());
        proof {
            assert(digits@.skip(0) =~= digits@);
        }
        self.phone_trie.put_word(word, digits.as_slice(), 0);
    }

    /// Every word that covers a prefix of `phone[start..]`, with how many of
    /// those digits it covers.
    pub fn words_from(&self, phone: &[u8], start: usize) -> (r: Vec<WordInfo>)
        requires
            self.wf(),
            start <= phone@.len(),
            forall|i: int| 0 <= i < phone@.len() ==> phone@[i] < 10,
        ensures
            r@.map_values(|w: WordInfo| word_info_view(w)) == self.words_along_from(
                phone@, start as int),
    {
        let mut out: Vec<WordInfo> = Vec::new();
        self.phone_trie.get_words(phone, start, &mut out);
        proof {
            let along = self.words_along_from(phone@, start as int);
            assert forall|k: int|
                0 <= k < out@.len() implies out@.map_values(|w: WordInfo| word_info_view(w))[k]
                == along[k] by {
                assert(word_info_view(out@[0 + k]) == along[k]);
            }
            assert(out@.map_values(|w: WordInfo| word_info_view(w)) =~= along);
        }
        out
    }

    /// The words collectable along `phone[start..]`.
    pub closed spec fn words_along_from(&self, phone: Seq<u8>, start: int) -> Seq<
        (Seq<char>, nat),
    > {
        self.phone_trie.words_along(phone.skip(start))
    }
}

impl Default for PhoneEncoder {
    /// An encoder with an empty dictionary.
    fn default() -> (r: Self)
        ensures
            r.wf(),
            forall|p: Seq<u8>| r.words_at(p) == Seq::<(Seq<char>, nat)>::empty(),
    {
        PhoneEncoder { phone_trie: PhoneTrie::empty() }
    }
}

} // verus!
