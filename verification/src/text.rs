//! Text as sequences of characters: how policy text is cut into lines, words
//! and path segments.

use vstd::prelude::*;

verus! {

/// Whether `c` is white space as `char::is_whitespace` judges it.
pub uninterp spec fn is_whitespace(c: char) -> bool;

/// `char::is_whitespace` says whether a character has the Unicode property
/// `White_Space`. It decides by the character alone; its answer is named
/// [`is_whitespace`], and nothing more is claimed of it.
pub assume_specification[ char::is_whitespace ](c: char) -> (white: bool)
    ensures
        white == is_whitespace(c),
;

/// `String::push` appends the character to the end of the string, and leaves
/// what was there as it is.
pub assume_specification[ String::push ](text: &mut String, c: char)
    ensures
        final(text)@ == old(text)@.push(c),
;

/// What separates the pieces of a text.
#[derive(Copy, Clone)]
pub enum Separator {
    Slash,
    Newline,
    Whitespace,
}

impl Separator {
    /// Whether `c` is a separator of this kind.
    pub open spec fn holds(self, c: char) -> bool {
        match self {
            Separator::Slash => c == '/',
            Separator::Newline => c == '\n',
            Separator::Whitespace => is_whitespace(c),
        }
    }

    /// Whether `c` is a separator of this kind.
    pub fn separates(self, c: char) -> (held: bool)
        ensures
            held == self.holds(c),
    {
        match self {
            Separator::Slash => c == '/',
            Separator::Newline => c == '\n',
            Separator::Whitespace => c.is_whitespace(),
        }
    }
}

/// The pieces of `text` between separators, in order. Each separator ends one
/// piece and starts the next, so a text with `n` separators has `n + 1`
/// pieces, some of them possibly empty.
pub open spec fn split_by(text: Seq<char>, separator: Separator) -> Seq<Seq<char>>
    decreases text.len(),
{
    if text.len() == 0 {
        seq![Seq::<char>::empty()]
    } else {
        let before = split_by(text.drop_last(), separator);
        if separator.holds(text.last()) {
            before.push(Seq::empty())
        } else {
            before.drop_last().push(before.last().push(text.last()))
        }
    }
}

/// A text has at least one piece.
pub proof fn lemma_split_by_nonempty(text: Seq<char>, separator: Separator)
    ensures
        split_by(text, separator).len() > 0,
    decreases text.len(),
{
    if text.len() > 0 {
        lemma_split_by_nonempty(text.drop_last(), separator);
    }
}

/// How many separators `text` holds.
pub open spec fn separators_in(text: Seq<char>, separator: Separator) -> nat
    decreases text.len(),
{
    if text.len() == 0 {
        0
    } else if separator.holds(text.last()) {
        separators_in(text.drop_last(), separator) + 1
    } else {
        separators_in(text.drop_last(), separator)
    }
}

/// A text has one piece more than it has separators.
pub proof fn lemma_split_by_count(text: Seq<char>, separator: Separator)
    ensures
        split_by(text, separator).len() == separators_in(text, separator) + 1,
    decreases text.len(),
{
    if text.len() > 0 {
        lemma_split_by_count(text.drop_last(), separator);
    }
}

/// No piece of a text holds a separator.
pub proof fn lemma_split_by_holds_no_separator(text: Seq<char>, separator: Separator)
    ensures
        forall|k: int, i: int|
            0 <= k < split_by(text, separator).len() && 0 <= i < split_by(text, separator)[k].len()
                ==> !separator.holds(#[trigger] split_by(text, separator)[k][i]),
    decreases text.len(),
{
    if text.len() > 0 {
        lemma_split_by_holds_no_separator(text.drop_last(), separator);
        lemma_split_by_nonempty(text.drop_last(), separator);
        let before = split_by(text.drop_last(), separator);
        let now = split_by(text, separator);
        assert forall|k: int, i: int|
            0 <= k < now.len() && 0 <= i < now[k].len() implies !separator.holds(
            #[trigger] now[k][i],
        ) by {
            if k < before.len() && i < before[k].len() {
                assert(!separator.holds(before[k][i]));
            }
        }
    }
}

/// The pieces of `chars` that `ranges` delimits.
pub open spec fn pieces_of(chars: Seq<char>, ranges: Seq<(usize, usize)>) -> Seq<Seq<char>> {
    Seq::new(ranges.len(), |k: int| chars.subrange(ranges[k].0 as int, ranges[k].1 as int))
}

/// The characters of `text`.
pub fn chars_of(text: &str) -> (chars: Vec<char>)
    ensures
        chars@ == text@,
{
    let mut chars: Vec<char> = Vec::new();
    for c in it: text.chars()
        invariant
            chars@ == it.seq().take(it.index() as int),
    {
        chars.push(c);
    }
    chars
}

/// The text made of `chars[from..to]`.
pub fn text_of(chars: &Vec<char>, from: usize, to: usize) -> (text: String)
    requires
        from <= to <= chars@.len(),
    ensures
        text@ == chars@.subrange(from as int, to as int),
{
    let mut text = String::new();
    let mut i: usize = from;
    while i < to
        invariant
            from <= i <= to <= chars@.len(),
            text@ == chars@.subrange(from as int, i as int),
        decreases to - i,
    {
        text.push(chars[i]);
        i += 1;
    }
    text
}

/// Whether two texts hold the same characters.
pub fn same_text(left: &str, right: &str) -> (same: bool)
    ensures
        same == (left@ == right@),
{
    let first = chars_of(left);
    let second = chars_of(right);
    if first.len() != second.len() {
        return false;
    }
    let mut i: usize = 0;
    while i < first.len()
        invariant
            i <= first@.len(),
            first@.len() == second@.len(),
            first@ == left@,
            second@ == right@,
            forall|j: int| 0 <= j < i ==> first@[j] == second@[j],
        decreases first@.len() - i,
    {
        if first[i] != second[i] {
            return false;
        }
        i += 1;
    }
    assert(first@ =~= second@);
    true
}

/// Where the pieces of `chars[from..]` between separators begin and end:
/// one piece more than there are separators, none of which holds one.
pub fn pieces(chars: &Vec<char>, from: usize, separator: Separator) -> (ranges: Vec<(usize, usize)>)
    requires
        from <= chars@.len(),
    ensures
        pieces_of(chars@, ranges@) == split_by(chars@.skip(from as int), separator),
        forall|k: int|
            0 <= k < ranges@.len() ==> from <= (#[trigger] ranges@[k]).0 <= ranges@[k].1
                <= chars@.len(),
        ranges@.len() == separators_in(chars@.skip(from as int), separator) + 1,
        forall|k: int, i: int|
            #![trigger ranges@[k], chars@[i]]
            0 <= k < ranges@.len() && ranges@[k].0 <= i < ranges@[k].1 ==> !separator.holds(
                chars@[i],
            ),
{
    let mut ranges: Vec<(usize, usize)> = Vec::new();
    let mut start: usize = from;
    let mut i: usize = from;
    assert(chars@.subrange(from as int, from as int) =~= Seq::<char>::empty());
    while i < chars.len()
        invariant
            from <= start <= i <= chars@.len(),
            pieces_of(chars@, ranges@).push(chars@.subrange(start as int, i as int)) == split_by(
                chars@.subrange(from as int, i as int),
                separator,
            ),
            forall|k: int|
                0 <= k < ranges@.len() ==> from <= (#[trigger] ranges@[k]).0 <= ranges@[k].1
                    <= chars@.len(),
        decreases chars@.len() - i,
    {
        let ghost current = chars@.subrange(start as int, i as int);
        let ghost read = chars@.subrange(from as int, i + 1);
        assert(read.drop_last() == chars@.subrange(from as int, i as int));
        if separator.separates(chars[i]) {
            ranges.push((start, i));
            start = i + 1;
            assert(chars@.subrange(start as int, i + 1) =~= Seq::<char>::empty());
        } else {
            assert(chars@.subrange(start as int, i + 1) =~= current.push(chars@[i as int]));
        }
        i += 1;
    }
    ranges.push((start, i));
    assert(pieces_of(chars@, ranges@) =~= pieces_of(chars@, ranges@.drop_last()).push(
        chars@.subrange(start as int, i as int),
    ));
    proof {
        let found = split_by(chars@.skip(from as int), separator);
        lemma_split_by_count(chars@.skip(from as int), separator);
        lemma_split_by_holds_no_separator(chars@.skip(from as int), separator);
        assert forall|k: int, i: int|
            #![trigger ranges@[k], chars@[i]]
            0 <= k < ranges@.len() && ranges@[k].0 <= i < ranges@[k].1 implies !separator.holds(
            chars@[i],
        ) by {
            assert(!separator.holds(found[k][i - ranges@[k].0]));
        }
    }
    ranges
}

/// `piece` without the carriage return at its end, if it has one.
pub open spec fn without_return(piece: Seq<char>) -> Seq<char> {
    if piece.len() > 0 && piece.last() == '\r' {
        piece.drop_last()
    } else {
        piece
    }
}

/// The first `count` of `pieces`, each without the carriage return at its end.
pub open spec fn ended_lines(pieces: Seq<Seq<char>>, count: int) -> Seq<Seq<char>> {
    Seq::new(count as nat, |k: int| without_return(pieces[k]))
}

/// The lines of `text`. A line ends at a line feed; the line feed, and a
/// carriage return just before it, are not part of the line. What follows the
/// last line feed is a line too, unless it is empty.
pub open spec fn lines_of(text: Seq<char>) -> Seq<Seq<char>> {
    let pieces = split_by(text, Separator::Newline);
    let ended = ended_lines(pieces, pieces.len() - 1);
    if pieces.last().len() == 0 {
        ended
    } else {
        ended.push(pieces.last())
    }
}

/// Those of `pieces` that are not empty, in order.
pub open spec fn nonempty(pieces: Seq<Seq<char>>) -> Seq<Seq<char>>
    decreases pieces.len(),
{
    if pieces.len() == 0 {
        Seq::empty()
    } else if pieces.last().len() > 0 {
        nonempty(pieces.drop_last()).push(pieces.last())
    } else {
        nonempty(pieces.drop_last())
    }
}

/// The words of `text`: its longest runs of characters that are not white
/// space.
pub open spec fn words_of(text: Seq<char>) -> Seq<Seq<char>> {
    nonempty(split_by(text, Separator::Whitespace))
}

/// Each of `nonempty(pieces)` is one of `pieces`, and is not empty.
pub proof fn lemma_nonempty(pieces: Seq<Seq<char>>)
    ensures
        forall|k: int|
            0 <= k < nonempty(pieces).len() ==> (#[trigger] nonempty(pieces)[k]).len() > 0
                && pieces.contains(nonempty(pieces)[k]),
    decreases pieces.len(),
{
    if pieces.len() > 0 {
        lemma_nonempty(pieces.drop_last());
        let before = nonempty(pieces.drop_last());
        assert forall|k: int| 0 <= k < nonempty(pieces).len() implies (#[trigger] nonempty(
            pieces,
        )[k]).len() > 0 && pieces.contains(nonempty(pieces)[k]) by {
            if k < before.len() {
                let found = choose|j: int|
                    0 <= j < pieces.drop_last().len() && pieces.drop_last()[j] == before[k];
                assert(pieces[found] == before[k]);
            } else {
                assert(pieces[pieces.len() - 1] == nonempty(pieces)[k]);
            }
        }
    }
}

/// A word is not empty, and holds no white space.
pub proof fn lemma_words_hold_no_whitespace(text: Seq<char>)
    ensures
        forall|k: int| 0 <= k < words_of(text).len() ==> (#[trigger] words_of(text)[k]).len() > 0,
        forall|k: int, i: int|
            0 <= k < words_of(text).len() && 0 <= i < words_of(text)[k].len() ==> !is_whitespace(
                #[trigger] words_of(text)[k][i],
            ),
{
    let pieces = split_by(text, Separator::Whitespace);
    lemma_nonempty(pieces);
    lemma_split_by_holds_no_separator(text, Separator::Whitespace);
    assert forall|k: int, i: int|
        0 <= k < words_of(text).len() && 0 <= i < words_of(text)[k].len() implies !is_whitespace(
        #[trigger] words_of(text)[k][i],
    ) by {
        let word = words_of(text)[k];
        let found = choose|j: int| 0 <= j < pieces.len() && pieces[j] == word;
        assert(!Separator::Whitespace.holds(pieces[found][i]));
    }
}

/// Cuts `text` into its lines.
pub fn lines(text: &str) -> (lines: Vec<String>)
    ensures
        lines.deep_view() == lines_of(text@),
{
    let chars = chars_of(text);
    let ranges = pieces(&chars, 0, Separator::Newline);
    let ghost all = split_by(text@, Separator::Newline);
    proof {
        lemma_split_by_nonempty(text@, Separator::Newline);
        assert(chars@.skip(0) =~= chars@);
    }
    let mut lines: Vec<String> = Vec::new();
    let mut k: usize = 0;
    while k < ranges.len() - 1
        invariant
            k < ranges@.len(),
            chars@ == text@,
            pieces_of(chars@, ranges@) == all,
            forall|j: int|
                0 <= j < ranges@.len() ==> (#[trigger] ranges@[j]).0 <= ranges@[j].1
                    <= chars@.len(),
            lines.deep_view() == ended_lines(all, k as int),
        decreases ranges@.len() - k,
    {
        let from = ranges[k].0;
        let to = ranges[k].1;
        let end = if from < to && chars[to - 1] == '\r' {
            to - 1
        } else {
            to
        };
        assert(chars@.subrange(from as int, end as int) =~= without_return(all[k as int]));
        let ghost before = lines.deep_view();
        lines.push(text_of(&chars, from, end));
        k += 1;
        assert(lines.deep_view() =~= before.push(without_return(all[k - 1])));
    }
    let from = ranges[k].0;
    let to = ranges[k].1;
    if from < to {
        lines.push(text_of(&chars, from, to));
    }
    lines
}

/// Cuts `text` into its words. No word is empty, and none holds white space.
pub fn words(text: &str) -> (words: Vec<String>)
    ensures
        words.deep_view() == words_of(text@),
        forall|k: int| 0 <= k < words@.len() ==> (#[trigger] words@[k])@.len() > 0,
        forall|k: int, i: int|
            0 <= k < words@.len() && 0 <= i < words@[k]@.len() ==> !is_whitespace(
                #[trigger] words@[k]@[i],
            ),
{
    let chars = chars_of(text);
    let ranges = pieces(&chars, 0, Separator::Whitespace);
    let ghost all = split_by(text@, Separator::Whitespace);
    proof {
        assert(chars@.skip(0) =~= chars@);
    }
    let mut words: Vec<String> = Vec::new();
    let mut k: usize = 0;
    while k < ranges.len()
        invariant
            k <= ranges@.len(),
            chars@ == text@,
            pieces_of(chars@, ranges@) == all,
            forall|j: int|
                0 <= j < ranges@.len() ==> (#[trigger] ranges@[j]).0 <= ranges@[j].1
                    <= chars@.len(),
            words.deep_view() == nonempty(all.take(k as int)),
        decreases ranges@.len() - k,
    {
        let from = ranges[k].0;
        let to = ranges[k].1;
        proof {
            assert(all.take(k + 1).drop_last() == all.take(k as int));
        }
        if from < to {
            words.push(text_of(&chars, from, to));
        }
        k += 1;
    }
    proof {
        assert(all.take(k as int) == all);
        lemma_words_hold_no_whitespace(text@);
        assert forall|j: int| 0 <= j < words@.len() implies (#[trigger] words@[j])@
            == words_of(text@)[j] by {
            assert(words.deep_view()[j] == words@[j]@);
        }
    }
    words
}

} // verus!
