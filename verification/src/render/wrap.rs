use vstd::prelude::*;
use crate::text::{chars_of, is_whitespace, is_ws, string_from, strings_from, views, vviews};

verus! {

/// State of the split of a text into words.
pub struct WordScan {
    pub words: Seq<Seq<char>>,
    pub current: Seq<char>,
}

/// One character of the split: whitespace ends the current word.
pub open spec fn word_step(st: WordScan, c: char) -> WordScan {
    if is_ws(c) {
        if st.current.len() > 0 {
            WordScan { words: st.words.push(st.current), current: Seq::empty() }
        } else {
            st
        }
    } else {
        WordScan { words: st.words, current: st.current.push(c) }
    }
}

/// The split after reading `s`.
pub open spec fn word_scan(s: Seq<char>) -> WordScan
    decreases s.len(),
{
    if s.len() == 0 {
        WordScan { words: Seq::empty(), current: Seq::empty() }
    } else {
        word_step(word_scan(s.drop_last()), s.last())
    }
}

/// The words of `s`: its maximal runs of non-whitespace characters
/// (`str::split_whitespace`).
pub open spec fn words_of(s: Seq<char>) -> Seq<Seq<char>> {
    let st = word_scan(s);
    if st.current.len() > 0 {
        st.words.push(st.current)
    } else {
        st.words
    }
}

/// The pieces of `width` characters cut from the front of `word`.
pub open spec fn chunks(word: Seq<char>, width: nat) -> Seq<Seq<char>>
    decreases word.len(),
{
    if width == 0 || word.len() < width {
        Seq::empty()
    } else {
        seq![word.take(width as int)] + chunks(word.skip(width as int), width)
    }
}

/// What is left of `word` after its pieces of `width` characters.
pub open spec fn chunk_rest(word: Seq<char>, width: nat) -> Seq<char>
    decreases word.len(),
{
    if width == 0 || word.len() < width {
        word
    } else {
        chunk_rest(word.skip(width as int), width)
    }
}

/// Finished lines and the line being filled.
pub struct WrapState {
    pub lines: Seq<Seq<char>>,
    pub current: Seq<char>,
}

/// A word placed at the start of an empty line: whole when it fits, else cut into
/// full-width lines with the rest left on the current line.
pub open spec fn place_word(lines: Seq<Seq<char>>, word: Seq<char>, width: nat) -> WrapState {
    if word.len() <= width {
        WrapState { lines, current: word }
    } else {
        WrapState { lines: lines + chunks(word, width), current: chunk_rest(word, width) }
    }
}

/// One word of the greedy wrap: it joins the current line after a space when that
/// fits, else starts a new line.
pub open spec fn wrap_step(st: WrapState, word: Seq<char>, width: nat) -> WrapState {
    if st.current.len() == 0 {
        place_word(st.lines, word, width)
    } else if st.current.len() + 1 + word.len() <= width {
        WrapState { lines: st.lines, current: st.current.push(' ') + word }
    } else {
        place_word(st.lines.push(st.current), word, width)
    }
}

/// The wrap after the words `words`.
pub open spec fn wrap_fold(words: Seq<Seq<char>>, width: nat) -> WrapState
    decreases words.len(),
{
    if words.len() == 0 {
        WrapState { lines: Seq::empty(), current: Seq::empty() }
    } else {
        wrap_step(wrap_fold(words.drop_last(), width), words.last(), width)
    }
}

/// The lines of `text` wrapped greedily at `width` characters: words are joined by
/// single spaces, words longer than a line are cut. An empty text gives one empty
/// line, a zero width the text unchanged.
pub open spec fn wrapped_lines(text: Seq<char>, width: nat) -> Seq<Seq<char>> {
    if text.len() == 0 {
        seq![Seq::empty()]
    } else if width == 0 {
        seq![text]
    } else {
        let st = wrap_fold(words_of(text), width);
        let lines = if st.current.len() > 0 {
            st.lines.push(st.current)
        } else {
            st.lines
        };
        if lines.len() == 0 {
            seq![Seq::empty()]
        } else {
            lines
        }
    }
}

fn split_words(v: &Vec<char>) -> (words: Vec<Vec<char>>)
    ensures
        vviews(words@) == words_of(v@),
{
    let n = v.len();
    let mut words: Vec<Vec<char>> = Vec::new();
    let mut current: Vec<char> = Vec::new();
    for i in 0..n
        invariant
            n == v@.len(),
            vviews(words@) == word_scan(v@.take(i as int)).words,
            current@ == word_scan(v@.take(i as int)).current,
    {
        let c = v[i];
        assert(v@.take(i + 1).drop_last() =~= v@.take(i as int));
        assert(v@.take(i + 1).last() == c);
        if is_whitespace(c) {
            if current.len() > 0 {
                let ghost prev = words@;
                let w = current;
                words.push(w);
                assert(vviews(words@) =~= vviews(prev).push(w@));
                current = Vec::new();
            }
        } else {
            current.push(c);
        }
    }
    assert(v@.take(n as int) =~= v@);
    if current.len() > 0 {
        let ghost prev = words@;
        let w = current;
        words.push(w);
        assert(vviews(words@) =~= vviews(prev).push(w@));
    }
    words
}

proof fn lemma_chunks(word: Seq<char>, width: nat)
    requires
        width > 0,
    ensures
        forall|i: int| 0 <= i < chunks(word, width).len() ==> (#[trigger] chunks(word, width)[i]).len() == width,
        chunk_rest(word, width).len() < width,
    decreases word.len(),
{
    if word.len() >= width {
        lemma_chunks(word.skip(width as int), width);
        let c = chunks(word, width);
        let r = chunks(word.skip(width as int), width);
        assert forall|i: int| 0 <= i < c.len() implies (#[trigger] c[i]).len() == width by {
            if i > 0 {
                assert(c[i] == r[i - 1]);
            }
        }
    }
}

proof fn lemma_wrap_fold_fits(ws: Seq<Seq<char>>, width: nat)
    requires
        width > 0,
    ensures
        forall|i: int| 0 <= i < wrap_fold(ws, width).lines.len() ==> (#[trigger] wrap_fold(ws, width).lines[i]).len() <= width,
        wrap_fold(ws, width).current.len() <= width,
    decreases ws.len(),
{
    if ws.len() > 0 {
        lemma_wrap_fold_fits(ws.drop_last(), width);
        let st = wrap_fold(ws.drop_last(), width);
        let word = ws.last();
        lemma_chunks(word, width);
        let lines0 = if st.current.len() == 0 || st.current.len() + 1 + word.len() <= width {
            st.lines
        } else {
            st.lines.push(st.current)
        };
        let out = wrap_fold(ws, width);
        assert forall|i: int| 0 <= i < out.lines.len() implies (#[trigger] out.lines[i]).len() <= width by {
            if i < lines0.len() {
                assert(out.lines[i] == lines0[i]);
                if i < st.lines.len() {
                    assert(lines0[i] == st.lines[i]);
                }
            } else {
                assert(out.lines[i] == chunks(word, width)[i - lines0.len()]);
            }
        }
    }
}

/// Every line of a wrapped text fits in the width.
pub proof fn lemma_wrapped_lines_fit(text: Seq<char>, width: nat)
    requires
        width > 0,
    ensures
        forall|i: int| 0 <= i < wrapped_lines(text, width).len() ==> (#[trigger] wrapped_lines(text, width)[i]).len() <= width,
{
    if text.len() > 0 {
        let ws = words_of(text);
        lemma_wrap_fold_fits(ws, width);
        let st = wrap_fold(ws, width);
        let lines = if st.current.len() > 0 {
            st.lines.push(st.current)
        } else {
            st.lines
        };
        assert forall|i: int| 0 <= i < lines.len() implies (#[trigger] lines[i]).len() <= width by {
            if i < st.lines.len() {
                assert(lines[i] == st.lines[i]);
            }
        }
    }
}

/// The characters of `s` that are not whitespace, in order.
pub open spec fn non_ws(s: Seq<char>) -> Seq<char>
    decreases s.len(),
{
    if s.len() == 0 {
        Seq::empty()
    } else if is_ws(s.last()) {
        non_ws(s.drop_last())
    } else {
        non_ws(s.drop_last()).push(s.last())
    }
}

/// The characters of `lines` that are not whitespace, line after line.
pub open spec fn text_of_lines(lines: Seq<Seq<char>>) -> Seq<char>
    decreases lines.len(),
{
    if lines.len() == 0 {
        Seq::empty()
    } else {
        text_of_lines(lines.drop_last()) + non_ws(lines.last())
    }
}

proof fn lemma_non_ws_add(a: Seq<char>, b: Seq<char>)
    ensures
        non_ws(a + b) == non_ws(a) + non_ws(b),
    decreases b.len(),
{
    if b.len() == 0 {
        assert(a + b =~= a);
        assert(non_ws(a) + non_ws(b) =~= non_ws(a));
    } else {
        lemma_non_ws_add(a, b.drop_last());
        assert((a + b).drop_last() =~= a + b.drop_last());
        assert((a + b).last() == b.last());
        if !is_ws(b.last()) {
            assert(non_ws(a) + non_ws(b.drop_last()).push(b.last()) =~= (non_ws(a) + non_ws(
                b.drop_last(),
            )).push(b.last()));
        }
    }
}

proof fn lemma_text_of_lines_add(a: Seq<Seq<char>>, b: Seq<Seq<char>>)
    ensures
        text_of_lines(a + b) == text_of_lines(a) + text_of_lines(b),
    decreases b.len(),
{
    if b.len() == 0 {
        assert(a + b =~= a);
        assert(text_of_lines(a) + text_of_lines(b) =~= text_of_lines(a));
    } else {
        lemma_text_of_lines_add(a, b.drop_last());
        assert((a + b).drop_last() =~= a + b.drop_last());
        assert((a + b).last() == b.last());
        assert(text_of_lines(a) + (text_of_lines(b.drop_last()) + non_ws(b.last())) =~= (
        text_of_lines(a) + text_of_lines(b.drop_last())) + non_ws(b.last()));
    }
}

proof fn lemma_text_of_push(a: Seq<Seq<char>>, x: Seq<char>)
    ensures
        text_of_lines(a.push(x)) == text_of_lines(a) + non_ws(x),
{
    assert(a.push(x).drop_last() =~= a);
}

proof fn lemma_chunks_keep_text(word: Seq<char>, width: nat)
    ensures
        text_of_lines(chunks(word, width)) + non_ws(chunk_rest(word, width)) == non_ws(word),
    decreases word.len(),
{
    if width == 0 || word.len() < width {
        assert(text_of_lines(chunks(word, width)) =~= Seq::<char>::empty());
        assert(Seq::<char>::empty() + non_ws(word) =~= non_ws(word));
    } else {
        let head = word.take(width as int);
        let tail = word.skip(width as int);
        lemma_chunks_keep_text(tail, width);
        lemma_text_of_lines_add(seq![head], chunks(tail, width));
        lemma_text_of_push(Seq::empty(), head);
        assert(Seq::<Seq<char>>::empty().push(head) =~= seq![head]);
        assert(text_of_lines(Seq::<Seq<char>>::empty()) =~= Seq::<char>::empty());
        lemma_non_ws_add(head, tail);
        assert(head + tail =~= word);
        assert(text_of_lines(chunks(word, width)) + non_ws(chunk_rest(word, width)) =~= non_ws(
            head,
        ) + (text_of_lines(chunks(tail, width)) + non_ws(chunk_rest(tail, width))));
    }
}

proof fn lemma_wrap_fold_keeps_text(ws: Seq<Seq<char>>, width: nat)
    ensures
        text_of_lines(wrap_fold(ws, width).lines) + non_ws(wrap_fold(ws, width).current)
            == text_of_lines(ws),
    decreases ws.len(),
{
    if ws.len() == 0 {
        assert(text_of_lines(Seq::<Seq<char>>::empty()) + non_ws(Seq::<char>::empty())
            =~= Seq::<char>::empty());
    } else {
        let prev = ws.drop_last();
        let word = ws.last();
        let st = wrap_fold(prev, width);
        lemma_wrap_fold_keeps_text(prev, width);
        let out = wrap_fold(ws, width);
        // text_of_lines(ws) == text_of_lines(prev) + non_ws(word)
        let lines0 = if st.current.len() == 0 || st.current.len() + 1 + word.len() <= width {
            st.lines
        } else {
            st.lines.push(st.current)
        };
        if st.current.len() != 0 && st.current.len() + 1 + word.len() <= width {
            lemma_non_ws_add(st.current.push(' '), word);
            assert(st.current.push(' ').drop_last() =~= st.current);
            assert(text_of_lines(st.lines) + (non_ws(st.current) + non_ws(word)) =~= (
            text_of_lines(st.lines) + non_ws(st.current)) + non_ws(word));
        } else {
            assert(text_of_lines(lines0) + non_ws(word) == text_of_lines(ws)) by {
                if st.current.len() != 0 {
                    lemma_text_of_push(st.lines, st.current);
                    assert(text_of_lines(st.lines) + non_ws(st.current) + non_ws(word) =~= (
                    text_of_lines(st.lines) + non_ws(st.current)) + non_ws(word));
                } else {
                    assert(non_ws(st.current) =~= Seq::<char>::empty());
                    assert(text_of_lines(st.lines) + non_ws(st.current) =~= text_of_lines(
                        st.lines,
                    ));
                }
            }
            if word.len() > width {
                lemma_chunks_keep_text(word, width);
                lemma_text_of_lines_add(lines0, chunks(word, width));
                assert(text_of_lines(lines0) + text_of_lines(chunks(word, width)) + non_ws(
                    chunk_rest(word, width),
                ) =~= text_of_lines(lines0) + (text_of_lines(chunks(word, width)) + non_ws(
                    chunk_rest(word, width),
                )));
            }
        }
    }
}

proof fn lemma_word_scan_keeps_text(s: Seq<char>)
    ensures
        non_ws(s) == text_of_lines(word_scan(s).words) + non_ws(word_scan(s).current),
    decreases s.len(),
{
    if s.len() == 0 {
        assert(text_of_lines(Seq::<Seq<char>>::empty()) + non_ws(Seq::<char>::empty())
            =~= Seq::<char>::empty());
    } else {
        let p = s.drop_last();
        let c = s.last();
        lemma_word_scan_keeps_text(p);
        let st = word_scan(p);
        if is_ws(c) {
            if st.current.len() > 0 {
                lemma_text_of_push(st.words, st.current);
                assert(non_ws(Seq::<char>::empty()) =~= Seq::<char>::empty());
                assert(text_of_lines(st.words.push(st.current)) + non_ws(Seq::<char>::empty())
                    =~= text_of_lines(st.words) + non_ws(st.current));
            }
        } else {
            assert(st.current.push(c).drop_last() =~= st.current);
            assert(text_of_lines(st.words) + non_ws(st.current).push(c) =~= (text_of_lines(
                st.words,
            ) + non_ws(st.current)).push(c));
        }
    }
}

/// Wrapping loses no text and adds none but spaces: the characters of the lines that
/// are not whitespace are, in order, those of the text.
pub proof fn lemma_wrap_keeps_text(text: Seq<char>, width: nat)
    ensures
        text_of_lines(wrapped_lines(text, width)) == non_ws(text),
{
    if text.len() == 0 {
        lemma_text_of_push(Seq::empty(), Seq::empty());
        assert(Seq::<Seq<char>>::empty().push(Seq::<char>::empty()) =~= seq![Seq::<char>::empty()]);
        assert(text_of_lines(Seq::<Seq<char>>::empty()) + non_ws(Seq::<char>::empty())
            =~= Seq::<char>::empty());
    } else if width == 0 {
        lemma_text_of_push(Seq::empty(), text);
        assert(Seq::<Seq<char>>::empty().push(text) =~= seq![text]);
        assert(text_of_lines(Seq::<Seq<char>>::empty()) + non_ws(text) =~= non_ws(text));
    } else {
        let sc = word_scan(text);
        lemma_word_scan_keeps_text(text);
        let ws = words_of(text);
        assert(text_of_lines(ws) == non_ws(text)) by {
            if sc.current.len() > 0 {
                lemma_text_of_push(sc.words, sc.current);
            } else {
                assert(non_ws(sc.current) =~= Seq::<char>::empty());
                assert(text_of_lines(sc.words) + non_ws(sc.current) =~= text_of_lines(sc.words));
            }
        }
        lemma_wrap_fold_keeps_text(ws, width);
        let st = wrap_fold(ws, width);
        if st.current.len() > 0 {
            lemma_text_of_push(st.lines, st.current);
        } else {
            assert(non_ws(st.current) =~= Seq::<char>::empty());
            assert(text_of_lines(st.lines) + non_ws(st.current) =~= text_of_lines(st.lines));
            if st.lines.len() == 0 {
                lemma_text_of_push(Seq::empty(), Seq::empty());
                assert(Seq::<Seq<char>>::empty().push(Seq::<char>::empty()) =~= seq![
                    Seq::<char>::empty(),
                ]);
                assert(text_of_lines(Seq::<Seq<char>>::empty()) =~= Seq::<char>::empty());
            }
        }
    }
}

/// A word added to the line `current`: appended when it fits in `width`; else the
/// line, when it holds anything, is finished, the word is cut into full-width lines,
/// and the rest becomes the current line.
pub open spec fn place_word_on(
    lines: Seq<Seq<char>>,
    current: Seq<char>,
    word: Seq<char>,
    width: nat,
) -> WrapState {
    if word.len() <= width {
        WrapState { lines, current: current + word }
    } else {
        WrapState {
            lines: (if current.len() > 0 {
                lines.push(current)
            } else {
                lines
            }) + chunks(word, width),
            current: chunk_rest(word, width),
        }
    }
}

/// Whether `w` holds no whitespace.
pub open spec fn no_ws(w: Seq<char>) -> bool {
    forall|i: int| 0 <= i < w.len() ==> !is_ws(#[trigger] w[i])
}

/// Whether `l` is a line of words: it is not empty, and every whitespace character
/// in it is a single space between two other characters (so none leads, none trails,
/// and no two stand together).
pub open spec fn words_line(l: Seq<char>) -> bool {
    &&& l.len() > 0
    &&& forall|i: int|
        0 <= i < l.len() && is_ws(#[trigger] l[i]) ==> l[i] == ' ' && 0 < i < l.len() - 1 && !is_ws(
            l[i + 1],
        )
}

proof fn lemma_word_scan_words(s: Seq<char>)
    ensures
        forall|i: int|
            0 <= i < word_scan(s).words.len() ==> (#[trigger] word_scan(s).words[i]).len() > 0 && no_ws(
                word_scan(s).words[i],
            ),
        no_ws(word_scan(s).current),
    decreases s.len(),
{
    if s.len() > 0 {
        lemma_word_scan_words(s.drop_last());
        let st = word_scan(s.drop_last());
        let c = s.last();
        if !is_ws(c) {
            assert forall|i: int| 0 <= i < st.current.push(c).len() implies !is_ws(
                #[trigger] st.current.push(c)[i],
            ) by {
                if i < st.current.len() {
                    assert(st.current.push(c)[i] == st.current[i]);
                }
            }
        }
    }
}

proof fn lemma_words_of_words(s: Seq<char>)
    ensures
        forall|i: int|
            0 <= i < words_of(s).len() ==> (#[trigger] words_of(s)[i]).len() > 0 && no_ws(words_of(s)[i]),
{
    lemma_word_scan_words(s);
    let st = word_scan(s);
    if st.current.len() > 0 {
        assert forall|i: int| 0 <= i < words_of(s).len() implies (#[trigger] words_of(s)[i]).len() > 0
            && no_ws(words_of(s)[i]) by {
            if i < st.words.len() {
                assert(words_of(s)[i] == st.words[i]);
            }
        }
    }
}

proof fn lemma_chunks_no_ws(word: Seq<char>, width: nat)
    requires
        width > 0,
        no_ws(word),
    ensures
        forall|i: int|
            0 <= i < chunks(word, width).len() ==> no_ws(#[trigger] chunks(word, width)[i]),
        no_ws(chunk_rest(word, width)),
    decreases word.len(),
{
    if word.len() >= width {
        let head = word.take(width as int);
        let tail = word.skip(width as int);
        assert forall|k: int| 0 <= k < tail.len() implies !is_ws(#[trigger] tail[k]) by {
            assert(tail[k] == word[k + width]);
        }
        assert forall|k: int| 0 <= k < head.len() implies !is_ws(#[trigger] head[k]) by {
            assert(head[k] == word[k]);
        }
        lemma_chunks_no_ws(tail, width);
        let c = chunks(word, width);
        let r = chunks(tail, width);
        assert forall|i: int| 0 <= i < c.len() implies no_ws(#[trigger] c[i]) by {
            if i > 0 {
                assert(c[i] == r[i - 1]);
            } else {
                assert(c[0] == head);
            }
        }
    }
}

proof fn lemma_no_ws_is_words_line(w: Seq<char>)
    requires
        w.len() > 0,
        no_ws(w),
    ensures
        words_line(w),
{
}

proof fn lemma_join_words_line(cur: Seq<char>, word: Seq<char>)
    requires
        words_line(cur),
        word.len() > 0,
        no_ws(word),
    ensures
        words_line(cur.push(' ') + word),
{
    let l = cur.push(' ') + word;
    let n = cur.len();
    assert(is_ws(' '));
    assert forall|i: int|
        0 <= i < l.len() && is_ws(#[trigger] l[i]) implies l[i] == ' ' && 0 < i < l.len() - 1 && !is_ws(
        l[i + 1],
    ) by {
        if i < n {
            assert(l[i] == cur[i]);
            assert(l[i + 1] == cur[i + 1]);
        } else if i == n {
            assert(l[i + 1] == word[0]);
            if n == 0 {
                assert(false);
            }
        } else {
            assert(l[i] == word[i - n - 1]);
        }
    }
}

proof fn lemma_wrap_fold_word_lines(ws: Seq<Seq<char>>, width: nat)
    requires
        width > 0,
        forall|i: int| 0 <= i < ws.len() ==> (#[trigger] ws[i]).len() > 0 && no_ws(ws[i]),
    ensures
        forall|i: int|
            0 <= i < wrap_fold(ws, width).lines.len() ==> words_line(
                #[trigger] wrap_fold(ws, width).lines[i],
            ),
        wrap_fold(ws, width).current.len() == 0 || words_line(wrap_fold(ws, width).current),
    decreases ws.len(),
{
    if ws.len() > 0 {
        let prev = ws.drop_last();
        assert forall|i: int| 0 <= i < prev.len() implies (#[trigger] prev[i]).len() > 0 && no_ws(
            prev[i],
        ) by {
            assert(prev[i] == ws[i]);
        }
        lemma_wrap_fold_word_lines(prev, width);
        let st = wrap_fold(prev, width);
        let word = ws.last();
        assert(word == ws[ws.len() - 1]);
        lemma_chunks_no_ws(word, width);
        lemma_chunks(word, width);
        let out = wrap_fold(ws, width);
        if st.current.len() != 0 && st.current.len() + 1 + word.len() <= width {
            lemma_join_words_line(st.current, word);
        } else {
            let lines0 = if st.current.len() == 0 {
                st.lines
            } else {
                st.lines.push(st.current)
            };
            assert forall|i: int| 0 <= i < lines0.len() implies words_line(#[trigger] lines0[i]) by {
                if i < st.lines.len() {
                    assert(lines0[i] == st.lines[i]);
                }
            }
            if word.len() <= width {
                lemma_no_ws_is_words_line(word);
            } else {
                let c = chunks(word, width);
                assert forall|i: int| 0 <= i < out.lines.len() implies words_line(
                    #[trigger] out.lines[i],
                ) by {
                    if i < lines0.len() {
                        assert(out.lines[i] == lines0[i]);
                    } else {
                        assert(out.lines[i] == c[i - lines0.len()]);
                        lemma_no_ws_is_words_line(c[i - lines0.len()]);
                    }
                }
                if chunk_rest(word, width).len() > 0 {
                    lemma_no_ws_is_words_line(chunk_rest(word, width));
                }
            }
        }
    }
}

/// Wrapped lines are lines of words: none is empty, and a space stands only singly
/// between two other characters, never at a line's start or end. The one exception
/// is the single empty line of a text that holds no word.
pub proof fn lemma_wrapped_lines_are_word_lines(text: Seq<char>, width: nat)
    requires
        width > 0,
    ensures
        wrapped_lines(text, width) == seq![Seq::<char>::empty()] || forall|i: int|
            0 <= i < wrapped_lines(text, width).len() ==> words_line(
                #[trigger] wrapped_lines(text, width)[i],
            ),
{
    if text.len() > 0 {
        lemma_words_of_words(text);
        let ws = words_of(text);
        lemma_wrap_fold_word_lines(ws, width);
        let st = wrap_fold(ws, width);
        let lines = if st.current.len() > 0 {
            st.lines.push(st.current)
        } else {
            st.lines
        };
        if lines.len() > 0 {
            assert forall|i: int| 0 <= i < lines.len() implies words_line(#[trigger] lines[i]) by {
                if i < st.lines.len() {
                    assert(lines[i] == st.lines[i]);
                }
            }
        }
    }
}

/// The length of the first word of `l`: the characters before its first whitespace.
pub open spec fn first_word_len(l: Seq<char>) -> nat
    decreases l.len(),
{
    if l.len() == 0 || is_ws(l[0]) {
        0
    } else {
        1 + first_word_len(l.drop_first())
    }
}

/// Whether each line of `lines` (but the last) is full: the first word of the next
/// line would not have fitted after it with a space.
pub open spec fn greedy(lines: Seq<Seq<char>>, width: nat) -> bool {
    forall|i: int|
        0 <= i < lines.len() - 1 ==> (#[trigger] lines[i]).len() + 1 + first_word_len(lines[i + 1])
            > width
}

proof fn lemma_first_word_len_bound(l: Seq<char>)
    ensures
        first_word_len(l) <= l.len(),
        no_ws(l) ==> first_word_len(l) == l.len(),
    decreases l.len(),
{
    if l.len() > 0 && !is_ws(l[0]) {
        let t = l.drop_first();
        lemma_first_word_len_bound(t);
        if no_ws(l) {
            assert forall|k: int| 0 <= k < t.len() implies !is_ws(#[trigger] t[k]) by {
                assert(t[k] == l[k + 1]);
            }
        }
    }
}

proof fn lemma_first_word_len_add(a: Seq<char>, b: Seq<char>)
    ensures
        first_word_len(a + b) == if first_word_len(a) < a.len() {
            first_word_len(a)
        } else {
            a.len() + first_word_len(b)
        },
    decreases a.len(),
{
    lemma_first_word_len_bound(a);
    if a.len() == 0 {
        assert(a + b =~= b);
    } else {
        assert((a + b)[0] == a[0]);
        if !is_ws(a[0]) {
            assert((a + b).drop_first() =~= a.drop_first() + b);
            lemma_first_word_len_add(a.drop_first(), b);
            lemma_first_word_len_bound(a.drop_first());
        }
    }
}

proof fn lemma_first_word_len_join(cur: Seq<char>, word: Seq<char>)
    requires
        cur.len() > 0,
    ensures
        first_word_len(cur.push(' ') + word) == first_word_len(cur),
{
    assert(cur.push(' ') + word =~= cur + (seq![' '] + word));
    lemma_first_word_len_add(cur, seq![' '] + word);
    lemma_first_word_len_bound(cur);
    assert((seq![' '] + word)[0] == ' ');
    assert(is_ws(' '));
}

proof fn lemma_greedy_add(a: Seq<Seq<char>>, b: Seq<Seq<char>>, width: nat)
    requires
        greedy(a, width),
        greedy(b, width),
        a.len() > 0 && b.len() > 0 ==> a.last().len() + 1 + first_word_len(b[0]) > width,
    ensures
        greedy(a + b, width),
{
    let l = a + b;
    assert forall|i: int| 0 <= i < l.len() - 1 implies (#[trigger] l[i]).len() + 1 + first_word_len(
        l[i + 1],
    ) > width by {
        if i < a.len() - 1 {
            assert(l[i] == a[i] && l[i + 1] == a[i + 1]);
        } else if i == a.len() - 1 {
            assert(l[i] == a.last() && l[i + 1] == b[0]);
        } else {
            assert(l[i] == b[i - a.len()] && l[i + 1] == b[i - a.len() + 1]);
        }
    }
}

proof fn lemma_chunks_greedy(word: Seq<char>, width: nat)
    requires
        width > 0,
    ensures
        greedy(chunks(word, width), width),
{
    lemma_chunks(word, width);
    let c = chunks(word, width);
    assert forall|i: int| 0 <= i < c.len() - 1 implies (#[trigger] c[i]).len() + 1 + first_word_len(
        c[i + 1],
    ) > width by {}
}

#[verifier::spinoff_prover]
#[verifier::rlimit(40)]
proof fn lemma_wrap_fold_greedy(ws: Seq<Seq<char>>, width: nat)
    requires
        width > 0,
        forall|i: int| 0 <= i < ws.len() ==> (#[trigger] ws[i]).len() > 0 && no_ws(ws[i]),
    ensures
        greedy(wrap_fold(ws, width).lines, width),
        wrap_fold(ws, width).lines.len() > 0 && wrap_fold(ws, width).current.len() > 0
            ==> wrap_fold(ws, width).lines.last().len() + 1 + first_word_len(wrap_fold(ws, width).current)
            > width,
        wrap_fold(ws, width).lines.len() > 0 && wrap_fold(ws, width).current.len() == 0
            ==> wrap_fold(ws, width).lines.last().len() == width,
    decreases ws.len(),
{
    if ws.len() > 0 {
        let prev = ws.drop_last();
        assert forall|i: int| 0 <= i < prev.len() implies (#[trigger] prev[i]).len() > 0 && no_ws(
            prev[i],
        ) by {
            assert(prev[i] == ws[i]);
        }
        lemma_wrap_fold_greedy(prev, width);
        let st = wrap_fold(prev, width);
        let word = ws.last();
        assert(word == ws[ws.len() - 1]);
        lemma_chunks(word, width);
        lemma_chunks_no_ws(word, width);
        lemma_chunks_greedy(word, width);
        lemma_first_word_len_bound(word);
        let out = wrap_fold(ws, width);
        if st.current.len() != 0 && st.current.len() + 1 + word.len() <= width {
            lemma_first_word_len_join(st.current, word);
        } else {
            let lines0 = if st.current.len() == 0 {
                st.lines
            } else {
                st.lines.push(st.current)
            };
            if st.current.len() != 0 {
                lemma_greedy_add(st.lines, seq![st.current], width);
                assert(st.lines + seq![st.current] =~= lines0);
            }
            assert(greedy(lines0, width));
            assert(lines0.len() > 0 ==> lines0.last().len() == width || lines0.last().len() + 1
                + word.len() > width);
            if word.len() > width {
                let c = chunks(word, width);
                assert(c.len() > 0);
                lemma_first_word_len_bound(c[0]);
                lemma_greedy_add(lines0, c, width);
                assert(out.lines == lines0 + c);
                assert(out.lines.last() == c.last());
            }
        }
    }
}

/// Wrapping is greedy: each line but the last is full, in that the first word of
/// the next line would not have fitted after it with a space.
pub proof fn lemma_wrapped_lines_are_greedy(text: Seq<char>, width: nat)
    requires
        width > 0,
    ensures
        greedy(wrapped_lines(text, width), width),
{
    if text.len() > 0 {
        lemma_words_of_words(text);
        let ws = words_of(text);
        lemma_wrap_fold_greedy(ws, width);
        let st = wrap_fold(ws, width);
        if st.current.len() > 0 {
            lemma_greedy_add(st.lines, seq![st.current], width);
            assert(st.lines + seq![st.current] =~= st.lines.push(st.current));
        }
    }
}

/// Whether every character of `w` has property `q`.
pub open spec fn all_chars(w: Seq<char>, q: spec_fn(char) -> bool) -> bool {
    forall|i: int| 0 <= i < w.len() ==> q(#[trigger] w[i])
}

proof fn lemma_word_scan_chars(s: Seq<char>, q: spec_fn(char) -> bool)
    requires
        all_chars(s, q),
    ensures
        forall|i: int| 0 <= i < word_scan(s).words.len() ==> all_chars(#[trigger] word_scan(s).words[i], q),
        all_chars(word_scan(s).current, q),
    decreases s.len(),
{
    if s.len() > 0 {
        let p = s.drop_last();
        assert forall|i: int| 0 <= i < p.len() implies q(#[trigger] p[i]) by {
            assert(p[i] == s[i]);
        }
        lemma_word_scan_chars(p, q);
        let st = word_scan(p);
        let c = s.last();
        assert(q(s[s.len() - 1]));
        assert forall|i: int| 0 <= i < st.current.push(c).len() implies q(#[trigger] st.current.push(c)[i]) by {
            if i < st.current.len() {
                assert(st.current.push(c)[i] == st.current[i]);
            }
        }
        let out = word_scan(s);
        assert forall|i: int| 0 <= i < out.words.len() implies all_chars(#[trigger] out.words[i], q) by {
            if i < st.words.len() {
                assert(out.words[i] == st.words[i]);
            }
        }
    }
}

proof fn lemma_chunks_chars(word: Seq<char>, width: nat, q: spec_fn(char) -> bool)
    requires
        all_chars(word, q),
    ensures
        forall|i: int| 0 <= i < chunks(word, width).len() ==> all_chars(#[trigger] chunks(word, width)[i], q),
        all_chars(chunk_rest(word, width), q),
    decreases word.len(),
{
    if width > 0 && word.len() >= width {
        let head = word.take(width as int);
        let tail = word.skip(width as int);
        assert forall|k: int| 0 <= k < tail.len() implies q(#[trigger] tail[k]) by {
            assert(tail[k] == word[k + width]);
        }
        assert forall|k: int| 0 <= k < head.len() implies q(#[trigger] head[k]) by {
            assert(head[k] == word[k]);
        }
        lemma_chunks_chars(tail, width, q);
        let c = chunks(word, width);
        let r = chunks(tail, width);
        assert forall|i: int| 0 <= i < c.len() implies all_chars(#[trigger] c[i], q) by {
            if i > 0 {
                assert(c[i] == r[i - 1]);
            } else {
                assert(c[0] == head);
            }
        }
    }
}

proof fn lemma_wrap_fold_chars(ws: Seq<Seq<char>>, width: nat, q: spec_fn(char) -> bool)
    requires
        q(' '),
        forall|i: int| 0 <= i < ws.len() ==> all_chars(#[trigger] ws[i], q),
    ensures
        forall|i: int|
            0 <= i < wrap_fold(ws, width).lines.len() ==> all_chars(#[trigger] wrap_fold(ws, width).lines[i], q),
        all_chars(wrap_fold(ws, width).current, q),
    decreases ws.len(),
{
    if ws.len() > 0 {
        let prev = ws.drop_last();
        assert forall|i: int| 0 <= i < prev.len() implies all_chars(#[trigger] prev[i], q) by {
            assert(prev[i] == ws[i]);
        }
        lemma_wrap_fold_chars(prev, width, q);
        let st = wrap_fold(prev, width);
        let word = ws.last();
        assert(word == ws[ws.len() - 1]);
        lemma_chunks_chars(word, width, q);
        let out = wrap_fold(ws, width);
        if st.current.len() != 0 && st.current.len() + 1 + word.len() <= width {
            let j = st.current.push(' ') + word;
            assert forall|k: int| 0 <= k < j.len() implies q(#[trigger] j[k]) by {
                if k < st.current.len() {
                    assert(j[k] == st.current[k]);
                } else if k > st.current.len() {
                    assert(j[k] == word[k - st.current.len() - 1]);
                }
            }
        } else {
            let lines0 = if st.current.len() == 0 {
                st.lines
            } else {
                st.lines.push(st.current)
            };
            assert forall|i: int| 0 <= i < lines0.len() implies all_chars(#[trigger] lines0[i], q) by {
                if i < st.lines.len() {
                    assert(lines0[i] == st.lines[i]);
                }
            }
            if word.len() > width {
                let c = chunks(word, width);
                assert forall|i: int| 0 <= i < out.lines.len() implies all_chars(#[trigger] out.lines[i], q) by {
                    if i < lines0.len() {
                        assert(out.lines[i] == lines0[i]);
                    } else {
                        assert(out.lines[i] == c[i - lines0.len()]);
                    }
                }
            }
        }
    }
}

/// Wrapping adds no character but spaces: when every character of the text, and the
/// space, has property `q`, so has every character of every line.
pub proof fn lemma_wrapped_lines_chars(text: Seq<char>, width: nat, q: spec_fn(char) -> bool)
    requires
        q(' '),
        all_chars(text, q),
    ensures
        forall|i: int|
            0 <= i < wrapped_lines(text, width).len() ==> all_chars(#[trigger] wrapped_lines(text, width)[i], q),
{
    if text.len() > 0 && width > 0 {
        lemma_word_scan_chars(text, q);
        let sc = word_scan(text);
        let ws = words_of(text);
        assert forall|i: int| 0 <= i < ws.len() implies all_chars(#[trigger] ws[i], q) by {
            if i < sc.words.len() {
                assert(ws[i] == sc.words[i]);
            }
        }
        lemma_wrap_fold_chars(ws, width, q);
        let st = wrap_fold(ws, width);
        let lines = if st.current.len() > 0 {
            st.lines.push(st.current)
        } else {
            st.lines
        };
        assert forall|i: int| 0 <= i < lines.len() implies all_chars(#[trigger] lines[i], q) by {
            if i < st.lines.len() {
                assert(lines[i] == st.lines[i]);
            }
        }
    }
}

proof fn lemma_place_word_on_empty(lines: Seq<Seq<char>>, word: Seq<char>, width: nat)
    ensures
        place_word_on(lines, Seq::empty(), word, width) == place_word(lines, word, width),
{
    assert(Seq::<char>::empty() + word =~= word);
}

/// Adds `word` to the line `current`: appended when it fits in `max_width`, else the
/// line is finished (when it holds anything) and the word cut into full lines, the
/// rest left on `current`.
fn push_wrapped_word(lines: &mut Vec<Vec<char>>, current: &mut Vec<char>, word: &Vec<char>, max_width: usize)
    ensures
        ({
            let st = place_word_on(vviews(old(lines)@), old(current)@, word@, max_width as nat);
            &&& vviews(final(lines)@) == st.lines
            &&& final(current)@ == st.current
        }),
{
    let ghost c0 = current@;
    if word.len() <= max_width {
        let mut i: usize = 0;
        let n = word.len();
        while i < n
            invariant
                n == word@.len(),
                i <= n,
                current@ == c0 + word@.take(i as int),
                lines@ == old(lines)@,
            decreases n - i,
        {
            current.push(word[i]);
            assert(current@ =~= c0 + word@.take(i + 1));
            i = i + 1;
        }
        assert(word@.take(n as int) =~= word@);
        return;
    }
    if current.len() > 0 {
        let mut full: Vec<char> = Vec::new();
        std::mem::swap(&mut full, current);
        let ghost prev = lines@;
        lines.push(full);
        assert(vviews(lines@) =~= vviews(prev).push(c0));
    }
    let n = word.len();
    let ghost start = vviews(lines@);
    if max_width == 0 {
        let mut i: usize = 0;
        while i < n
            invariant
                n == word@.len(),
                i <= n,
                current@ == word@.take(i as int),
                vviews(lines@) == start,
            decreases n - i,
        {
            current.push(word[i]);
            assert(current@ =~= word@.take(i + 1));
            i = i + 1;
        }
        assert(word@.take(n as int) =~= word@);
        assert(start + chunks(word@, 0) =~= start);
        return;
    }
    let mut pos: usize = 0;
    assert(word@.skip(0) =~= word@);
    while n - pos >= max_width
        invariant
            n == word@.len(),
            pos <= n,
            max_width > 0,
            current@.len() == 0,
            start + chunks(word@, max_width as nat) == vviews(lines@) + chunks(word@.skip(pos as int), max_width as nat),
            chunk_rest(word@, max_width as nat) == chunk_rest(word@.skip(pos as int), max_width as nat),
        decreases n - pos,
    {
        let mut piece: Vec<char> = Vec::new();
        let mut k: usize = 0;
        while k < max_width
            invariant
                n == word@.len(),
                pos + max_width <= n,
                k <= max_width,
                piece@ == word@.subrange(pos as int, pos + k),
            decreases max_width - k,
        {
            piece.push(word[pos + k]);
            assert(piece@ =~= word@.subrange(pos as int, pos + k + 1));
            k = k + 1;
        }
        let ghost rest = word@.skip(pos as int);
        assert(rest.take(max_width as int) =~= piece@);
        assert(rest.skip(max_width as int) =~= word@.skip(pos + max_width));
        let ghost prev = lines@;
        lines.push(piece);
        assert(vviews(lines@) =~= vviews(prev).push(piece@));
        assert(vviews(prev) + chunks(rest, max_width as nat) =~= vviews(lines@) + chunks(word@.skip(pos + max_width), max_width as nat));
        pos = pos + max_width;
    }
    assert(chunks(word@.skip(pos as int), max_width as nat) =~= Seq::<Seq<char>>::empty());
    assert(vviews(lines@) =~= start + chunks(word@, max_width as nat));
    let ghost tail = word@.skip(pos as int);
    let mut i = pos;
    while i < n
        invariant
            n == word@.len(),
            pos <= i <= n,
            current@ == word@.subrange(pos as int, i as int),
            vviews(lines@) == start + chunks(word@, max_width as nat),
        decreases n - i,
    {
        current.push(word[i]);
        assert(current@ =~= word@.subrange(pos as int, i + 1));
        i = i + 1;
    }
    assert(current@ =~= tail);
}

/// Wraps `text` greedily into lines of at most `max_width` characters; words are
/// joined by single spaces and a word longer than a line is cut into pieces.
pub fn wrap_text_lines(text: &str, max_width: usize) -> (lines: Vec<String>)
    ensures
        views(lines@) == wrapped_lines(text@, max_width as nat),
        max_width > 0 ==> forall|i: int| 0 <= i < lines@.len() ==> (#[trigger] lines@[i])@.len() <= max_width,
{
    let v = chars_of(text);
    if v.len() == 0 {
        let r = vec![String::new()];
        assert(views(r@) =~= wrapped_lines(text@, max_width as nat));
        return r;
    }
    if max_width == 0 {
        let r = vec![string_from(&v)];
        assert(views(r@) =~= wrapped_lines(text@, max_width as nat));
        return r;
    }
    let words = split_words(&v);
    let ghost ws = words_of(v@);

    let mut lines: Vec<Vec<char>> = Vec::new();
    let mut current: Vec<char> = Vec::new();
    let nw = words.len();
    for k in 0..nw
        invariant
            nw == words@.len(),
            ws == words_of(v@),
            vviews(words@) == ws,
            max_width > 0,
            ({
                let st = wrap_fold(ws.take(k as int), max_width as nat);
                &&& vviews(lines@) == st.lines
                &&& current@ == st.current
            }),
    {
        let word = &words[k];
        assert(ws.take(k + 1).drop_last() =~= ws.take(k as int));
        assert(ws.take(k + 1).last() == word@);
        let ghost prev = lines@;
        if current.len() == 0 {
            proof {
                assert(current@ =~= Seq::<char>::empty());
                lemma_place_word_on_empty(vviews(lines@), word@, max_width as nat);
            }
            push_wrapped_word(&mut lines, &mut current, word, max_width);
        } else if current.len() < max_width && word.len() <= max_width - current.len() - 1 {
            current.push(' ');
            let mut i: usize = 0;
            let ghost base = current@;
            while i < word.len()
                invariant
                    i <= word@.len(),
                    current@ == base + word@.take(i as int),
                decreases word@.len() - i,
            {
                current.push(word[i]);
                assert(current@ =~= base + word@.take(i + 1));
                i = i + 1;
            }
            assert(word@.take(word@.len() as int) =~= word@);
        } else {
            let full = current;
            lines.push(full);
            assert(vviews(lines@) =~= vviews(prev).push(full@));
            current = Vec::new();
            proof {
                lemma_place_word_on_empty(vviews(lines@), word@, max_width as nat);
            }
            push_wrapped_word(&mut lines, &mut current, word, max_width);
        }
    }
    assert(ws.take(nw as int) =~= ws);
    if current.len() > 0 {
        let ghost prev = lines@;
        let last = current;
        lines.push(last);
        assert(vviews(lines@) =~= vviews(prev).push(last@));
    }
    if lines.len() == 0 {
        let ghost prev = lines@;
        lines.push(Vec::new());
        assert(vviews(lines@) =~= seq![Seq::<char>::empty()]);
    }
    let r = strings_from(&lines);
    proof {
        lemma_wrapped_lines_fit(text@, max_width as nat);
        assert forall|i: int| 0 <= i < r@.len() implies (#[trigger] r@[i])@.len() <= max_width by {
            assert(r@[i]@ == views(r@)[i]);
            assert(views(r@)[i] == wrapped_lines(text@, max_width as nat)[i]);
        }
    }
    r
}

} // verus!
