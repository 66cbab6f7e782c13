//! Shaping the lines of a screen: lines are rows of pieces of text, each in
//! one style, and are coloured, shifted and wrapped piece by piece.

use crate::file_buffer::pattern::{find_first, regex_compiles, regex_first_match, SearchPattern};
use crate::ui::frontend::{chars_of, string_of};
use crate::utils::text::{display_width, lossy_string, lossy_text, text_width};
use vstd::prelude::*;
use vstd::utf8::encode_utf8;
use vstd::slice::slice_to_vec;

verus! {

/// A piece of text in one style. A style is a number to which the screen
/// gives a colour; a piece without one is shown as it comes.
pub struct Piece {
    pub text: Vec<char>,
    pub style: Option<usize>,
}

/// A piece as plain values.
#[verifier::ext_equal]
pub struct PieceModel {
    pub text: Seq<char>,
    pub style: Option<usize>,
}

impl View for Piece {
    type V = PieceModel;

    open spec fn view(&self) -> PieceModel {
        PieceModel { text: self.text@, style: self.style }
    }
}

/// Some pieces as plain values.
pub open spec fn models(pieces: Seq<Piece>) -> Seq<PieceModel> {
    Seq::new(pieces.len(), |i: int| pieces[i]@)
}

/// Some rows of pieces as plain values.
pub open spec fn row_models(rows: Seq<Vec<Piece>>) -> Seq<Seq<PieceModel>> {
    Seq::new(rows.len(), |i: int| models(rows[i]@))
}

/// The pieces with one more.
proof fn lemma_models_push(pieces: Seq<Piece>, piece: Piece)
    ensures
        models(pieces.push(piece)) == models(pieces).push(piece@),
{
    assert(models(pieces.push(piece)) =~= models(pieces).push(piece@));
}

/// The rows with one more.
proof fn lemma_row_models_push(rows: Seq<Vec<Piece>>, row: Vec<Piece>)
    ensures
        row_models(rows.push(row)) == row_models(rows).push(models(row@)),
{
    assert(row_models(rows.push(row)) =~= row_models(rows).push(models(row@)));
}

/// A piece of the characters in the style.
fn piece_of(chars: &[char], style: Option<usize>) -> (piece: Piece)
    ensures
        piece@ == (PieceModel { text: chars@, style }),
{
    Piece { text: slice_to_vec(chars), style }
}

/// A line of pieces without its first `offset` characters. Pieces that lie
/// in those characters altogether are gone, and the piece that the cut goes
/// through keeps its style.
pub open spec fn shifted(pieces: Seq<PieceModel>, offset: nat) -> Seq<PieceModel>
    decreases pieces.len(),
{
    if pieces.len() == 0 || offset == 0 {
        pieces
    } else if pieces[0].text.len() <= offset {
        shifted(pieces.skip(1), (offset - pieces[0].text.len()) as nat)
    } else {
        seq![
            PieceModel { text: pieces[0].text.skip(offset as int), style: pieces[0].style },
        ] + pieces.skip(1)
    }
}

/// Takes the first `offset` characters away from a line of pieces.
pub fn shift_pieces(pieces: &Vec<Piece>, offset: usize) -> (out: Vec<Piece>)
    ensures
        models(out@) == shifted(models(pieces@), offset as nat),
{
    let ghost all = models(pieces@);
    let mut out: Vec<Piece> = Vec::new();
    let mut left = offset;
    let mut i: usize = 0;
    assert(all.skip(0) =~= all);
    while i < pieces.len() && left > 0 && pieces[i].text.len() <= left
        invariant
            i <= pieces@.len(),
            all == models(pieces@),
            out@.len() == 0,
            shifted(all, offset as nat) == shifted(all.skip(i as int), left as nat),
        decreases pieces@.len() - i,
    {
        proof {
            let rest = all.skip(i as int);
            assert(rest[0] == pieces@[i as int]@);
            assert(rest.skip(1) =~= all.skip(i + 1));
        }
        left = left - pieces[i].text.len();
        i = i + 1;
    }
    let ghost rest = all.skip(i as int);
    if i < pieces.len() && left > 0 {
        let whole = &pieces[i];
        let cut = piece_of(&whole.text.as_slice()[left..whole.text.len()], whole.style);
        proof {
            assert(rest[0] == pieces@[i as int]@);
            assert(cut@ =~= (PieceModel {
                text: rest[0].text.skip(left as int),
                style: rest[0].style,
            }));
            lemma_models_push(out@, cut);
        }
        out.push(cut);
        i = i + 1;
    }
    let ghost head = models(out@);
    let ghost from = i;
    assert(shifted(all, offset as nat) =~= head + all.skip(from as int)) by {
        if from < pieces@.len() || head.len() > 0 {
            assert(rest.skip(1) =~= all.skip(from as int) || head.len() == 0);
        }
    }
    while i < pieces.len()
        invariant
            from <= i <= pieces@.len(),
            all == models(pieces@),
            models(out@) == head + all.subrange(from as int, i as int),
        decreases pieces@.len() - i,
    {
        let copy = piece_of(pieces[i].text.as_slice(), pieces[i].style);
        proof {
            lemma_models_push(out@, copy);
            assert(copy@ =~= pieces@[i as int]@);
            assert(all.subrange(from as int, i + 1) =~= all.subrange(from as int, i as int).push(
                all[i as int],
            ));
            assert((head + all.subrange(from as int, i as int)).push(all[i as int]) =~= head
                + all.subrange(from as int, i + 1));
        }
        out.push(copy);
        i = i + 1;
    }
    assert(all.subrange(from as int, i as int) =~= all.skip(from as int));
    out
}

/// A word that is to stand out, and the style in which it does.
pub struct Word {
    pub text: Vec<char>,
    pub style: usize,
}

/// Some words as plain values.
pub open spec fn word_models(words: Seq<Word>) -> Seq<(Seq<char>, usize)> {
    Seq::new(words.len(), |i: int| (words[i].text@, words[i].style))
}

/// Whether the word stands in the line at the place `at`. An empty word
/// stands nowhere.
pub open spec fn word_at(line: Seq<char>, at: int, word: Seq<char>) -> bool {
    &&& word.len() > 0
    &&& 0 <= at
    &&& at + word.len() <= line.len()
    &&& line.subrange(at, at + word.len()) == word
}

/// The first of the words from number `from` on that stands in the line at
/// the place `at`.
pub open spec fn first_word_at(
    line: Seq<char>,
    at: int,
    words: Seq<(Seq<char>, usize)>,
    from: nat,
) -> Option<nat>
    decreases words.len() - from,
{
    if from >= words.len() {
        None
    } else if word_at(line, at, words[from as int].0) {
        Some(from)
    } else {
        first_word_at(line, at, words, from + 1)
    }
}

/// A piece that is shown as it comes.
pub open spec fn plain_piece(text: Seq<char>) -> PieceModel {
    PieceModel { text, style: None }
}

/// The pieces of the rest of a line in which the words stand out. The line
/// is read from `start` on; `open` is where the text begins that was read
/// and belongs to no word. At each place the first word of the list that
/// stands there is taken, and the text between two words is a piece of its
/// own, as is the text behind the last word, even where it is empty.
pub open spec fn coloured(
    line: Seq<char>,
    words: Seq<(Seq<char>, usize)>,
    start: nat,
    open: nat,
) -> Seq<PieceModel>
    decreases line.len() - start,
{
    if start >= line.len() {
        seq![plain_piece(line.subrange(open as int, line.len() as int))]
    } else {
        match first_word_at(line, start as int, words, 0) {
            Some(k) => {
                let word = words[k as int];
                let behind = start + word.0.len();
                let between = if start != open {
                    seq![plain_piece(line.subrange(open as int, start as int))]
                } else {
                    Seq::empty()
                };
                if behind <= start || behind > line.len() {
                    Seq::empty()
                } else {
                    between + seq![PieceModel { text: word.0, style: Some(word.1) }] + coloured(
                        line,
                        words,
                        behind,
                        behind,
                    )
                }
            },
            None => coloured(line, words, start + 1, open),
        }
    }
}

/// Whether the word stands in the line at the place `at`.
fn stands_at(line: &[char], at: usize, word: &[char]) -> (yes: bool)
    requires
        at <= line@.len(),
    ensures
        yes == word_at(line@, at as int, word@),
{
    let n = word.len();
    if n == 0 || n > line.len() - at {
        return false;
    }
    let mut i: usize = 0;
    while i < n
        invariant
            i <= n,
            n == word@.len(),
            at + n <= line@.len() <= usize::MAX,
            forall|k: int| 0 <= k < i ==> line@[at + k] == word@[k],
        decreases n - i,
    {
        if line[at + i] != word[i] {
            assert(line@.subrange(at as int, at + n)[i as int] == line@[at + i]);
            return false;
        }
        i = i + 1;
    }
    assert(line@.subrange(at as int, at + n) =~= word@);
    true
}

/// The first of the words that stands in the line at the place `at`.
fn find_word(line: &[char], at: usize, words: &Vec<Word>) -> (found: Option<usize>)
    requires
        at <= line@.len(),
    ensures
        first_word_at(line@, at as int, word_models(words@), 0) == match found {
            Some(k) => Some(k as nat),
            None => None,
        },
        found matches Some(k) ==> k < words@.len() && word_at(line@, at as int, words@[k as int].text@),
{
    let mut k: usize = 0;
    while k < words.len()
        invariant
            k <= words@.len(),
            at <= line@.len(),
            first_word_at(line@, at as int, word_models(words@), 0) == first_word_at(
                line@,
                at as int,
                word_models(words@),
                k as nat,
            ),
        decreases words@.len() - k,
    {
        assert(word_models(words@)[k as int].0 == words@[k as int].text@);
        if stands_at(line, at, words[k].text.as_slice()) {
            return Some(k);
        }
        k = k + 1;
    }
    None
}

/// Cuts a line into pieces in which the words stand out.
pub fn color_words(line: &[char], words: &Vec<Word>) -> (pieces: Vec<Piece>)
    ensures
        models(pieces@) == coloured(line@, word_models(words@), 0, 0),
{
    let ghost list = word_models(words@);
    let mut pieces: Vec<Piece> = Vec::new();
    let mut start: usize = 0;
    let mut open: usize = 0;
    assert(models(pieces@) + coloured(line@, list, 0, 0) =~= coloured(line@, list, 0, 0));
    while start < line.len()
        invariant
            open <= start <= line@.len(),
            list == word_models(words@),
            models(pieces@) + coloured(line@, list, start as nat, open as nat) == coloured(
                line@,
                list,
                0,
                0,
            ),
        decreases line@.len() - start,
    {
        let ghost before = models(pieces@);
        match find_word(line, start, words) {
            Some(k) => {
                let ghost word = list[k as int];
                assert(word.0 == words@[k as int].text@ && word.1 == words@[k as int].style);
                let ghost between = if start != open {
                    seq![plain_piece(line@.subrange(open as int, start as int))]
                } else {
                    Seq::empty()
                };
                if start != open {
                    let gap = piece_of(&line[open..start], None);
                    proof {
                        lemma_models_push(pieces@, gap);
                        assert(gap@ =~= plain_piece(line@.subrange(open as int, start as int)));
                    }
                    pieces.push(gap);
                }
                let marked = piece_of(words[k].text.as_slice(), Some(words[k].style));
                proof {
                    lemma_models_push(pieces@, marked);
                    assert(marked@ =~= (PieceModel { text: word.0, style: Some(word.1) }));
                }
                pieces.push(marked);
                let behind = start + words[k].text.len();
                proof {
                    let rest = coloured(line@, list, behind as nat, behind as nat);
                    assert(models(pieces@) =~= before + between + seq![marked@]);
                    assert(before + (between + seq![marked@] + rest) =~= (before + between + seq![
                        marked@,
                    ]) + rest);
                }
                start = behind;
                open = behind;
            },
            None => {
                start = start + 1;
            },
        }
    }
    let tail = piece_of(&line[open..line.len()], None);
    proof {
        lemma_models_push(pieces@, tail);
        assert(tail@ =~= plain_piece(line@.subrange(open as int, line@.len() as int)));
        let before = models(pieces@);
        assert(before.push(tail@) =~= before + seq![tail@]);
    }
    pieces.push(tail);
    pieces
}

/// The smaller of two numbers.
pub open spec fn min_nat(a: nat, b: nat) -> nat {
    if a <= b {
        a
    } else {
        b
    }
}

/// The rows that the rest of a line makes when it is wrapped after `width`
/// columns, where `width` is not zero. The pieces from number `at` on are
/// still to come; `content` is what is left of the piece `at`, `row` are the
/// pieces of the row that is being filled and `room` is the number of
/// columns that are free in it. A piece goes into the row as a whole where
/// its columns fit; where they do not, as many characters of it as columns
/// are free end the row, and the rest goes on in the next row. Empty pieces
/// are left out.
pub open spec fn wrapped_from(
    pieces: Seq<PieceModel>,
    at: nat,
    content: Seq<char>,
    row: Seq<PieceModel>,
    room: nat,
    width: nat,
) -> Seq<Seq<PieceModel>>
    decreases pieces.len() - at, content.len(), (if room == width {
            0nat
        } else {
            1nat
        }),
{
    if at >= pieces.len() {
        seq![row]
    } else if width == 0 {
        seq![row]
    } else if content.len() == 0 {
        wrapped_from(
            pieces,
            at + 1,
            if at + 1 < pieces.len() {
                pieces[at as int + 1].text
            } else {
                Seq::empty()
            },
            row,
            room,
            width,
        )
    } else {
        let style = pieces[at as int].style;
        let columns = text_width(content);
        if room >= columns {
            wrapped_from(
                pieces,
                at + 1,
                if at + 1 < pieces.len() {
                    pieces[at as int + 1].text
                } else {
                    Seq::empty()
                },
                row.push(PieceModel { text: content, style }),
                (room - columns) as nat,
                width,
            )
        } else if room > width {
            seq![row]
        } else {
            let cut = min_nat(room, content.len());
            seq![row.push(PieceModel { text: content.take(cut as int), style })] + wrapped_from(
                pieces,
                at,
                content.skip(cut as int),
                Seq::empty(),
                width,
                width,
            )
        }
    }
}

/// The rows that a line makes when it is wrapped after `width` columns. A
/// width of zero leaves the line as it is.
pub open spec fn wrapped(pieces: Seq<PieceModel>, width: nat) -> Seq<Seq<PieceModel>> {
    if width == 0 {
        seq![pieces]
    } else {
        wrapped_from(
            pieces,
            0,
            if pieces.len() > 0 {
                pieces[0].text
            } else {
                Seq::empty()
            },
            Seq::empty(),
            width,
            width,
        )
    }
}

/// A copy of the pieces.
fn copy_pieces(pieces: &Vec<Piece>) -> (copy: Vec<Piece>)
    ensures
        models(copy@) == models(pieces@),
{
    let mut copy: Vec<Piece> = Vec::new();
    let mut i: usize = 0;
    while i < pieces.len()
        invariant
            i <= pieces@.len(),
            models(copy@) == models(pieces@).take(i as int),
        decreases pieces@.len() - i,
    {
        let piece = piece_of(pieces[i].text.as_slice(), pieces[i].style);
        proof {
            lemma_models_push(copy@, piece);
            assert(models(pieces@).take(i + 1) =~= models(pieces@).take(i as int).push(
                pieces@[i as int]@,
            ));
        }
        copy.push(piece);
        i = i + 1;
    }
    assert(models(pieces@).take(i as int) =~= models(pieces@));
    copy
}

/// Wraps a line of pieces after `width` columns.
pub fn wrap_pieces(pieces: &Vec<Piece>, width: usize) -> (rows: Vec<Vec<Piece>>)
    ensures
        row_models(rows@) == wrapped(models(pieces@), width as nat),
{
    let ghost all = models(pieces@);
    let mut rows: Vec<Vec<Piece>> = Vec::new();
    if width == 0 {
        let whole = copy_pieces(pieces);
        proof {
            lemma_row_models_push(rows@, whole);
            assert(row_models(rows@).push(models(whole@)) =~= seq![all]);
        }
        rows.push(whole);
        return rows;
    }
    let mut row: Vec<Piece> = Vec::new();
    let mut room: usize = width;
    let mut at: usize = 0;
    let mut from: usize = 0;
    assert(row_models(rows@) + wrapped(all, width as nat) =~= wrapped(all, width as nat));
    assert(models(row@) =~= Seq::<PieceModel>::empty());
    proof {
        if pieces@.len() > 0 {
            assert(all[0] == pieces@[0]@);
            assert(pieces@[0].text@.skip(0) =~= pieces@[0].text@);
        }
    }
    while at < pieces.len()
        invariant
            width > 0,
            all == models(pieces@),
            at <= pieces@.len(),
            room <= width,
            at < pieces@.len() ==> from <= pieces@[at as int].text@.len(),
            row_models(rows@) + wrapped_from(
                all,
                at as nat,
                if at < pieces@.len() {
                    pieces@[at as int].text@.skip(from as int)
                } else {
                    Seq::empty()
                },
                models(row@),
                room as nat,
                width as nat,
            ) == wrapped(all, width as nat),
        decreases pieces@.len() - at, pieces@[at as int].text@.len() - from, (if room == width {
                0nat
            } else {
                1nat
            }),
    {
        let text = pieces[at].text.as_slice();
        let style = pieces[at].style;
        let content = &text[from..text.len()];
        assert(content@ =~= pieces@[at as int].text@.skip(from as int));
        assert(all[at as int] == pieces@[at as int]@);
        proof {
            if at + 1 < pieces@.len() {
                assert(all[at + 1] == pieces@[at + 1]@);
                assert(pieces@[at + 1].text@.skip(0) =~= pieces@[at + 1].text@);
            }
        }
        if content.len() == 0 {
            at = at + 1;
            from = 0;
        } else {
            let columns = display_width(string_of(content).as_str());
            if room >= columns {
                let piece = piece_of(content, style);
                proof {
                    lemma_models_push(row@, piece);
                }
                row.push(piece);
                room = room - columns;
                at = at + 1;
                from = 0;
            } else {
                let cut = if room < content.len() {
                    room
                } else {
                    content.len()
                };
                let piece = piece_of(&content[0..cut], style);
                let ghost before = row_models(rows@);
                let ghost rest = wrapped_from(
                    all,
                    at as nat,
                    content@.skip(cut as int),
                    Seq::empty(),
                    width as nat,
                    width as nat,
                );
                proof {
                    lemma_models_push(row@, piece);
                    assert(piece@ =~= (PieceModel {
                        text: content@.take(cut as int),
                        style: all[at as int].style,
                    }));
                }
                row.push(piece);
                let ghost full = models(row@);
                proof {
                    lemma_row_models_push(rows@, row);
                    assert(before + (seq![full] + rest) =~= before.push(full) + rest);
                    assert(content@.skip(cut as int) =~= pieces@[at as int].text@.skip(
                        from + cut,
                    ));
                }
                rows.push(row);
                row = Vec::new();
                assert(models(row@) =~= Seq::<PieceModel>::empty());
                room = width;
                from = from + cut;
            }
        }
    }
    proof {
        lemma_row_models_push(rows@, row);
        let before = row_models(rows@);
        assert(before.push(models(row@)) =~= before + seq![models(row@)]);
    }
    rows.push(row);
    rows
}

/// The style of the matches of a search.
pub const MATCH_STYLE: usize = 0;

/// The piece that the bytes are shown as, in the style.
pub open spec fn shown_piece(bytes: Seq<u8>, style: Option<usize>) -> PieceModel {
    PieceModel { text: lossy_text(bytes), style }
}

/// The pieces of the rest of a line, from the byte `pos` on, in which the
/// matches of the pattern stand out. The matcher is run on what is left of
/// the line again and again; each time the text before the match and the
/// match are pieces, and the search goes on behind the match. The text
/// behind the last match is a piece of its own, even where it is empty, and
/// so is what is left when a match ends where the search began.
pub open spec fn highlighted(pattern: Seq<char>, bytes: Seq<u8>, pos: nat) -> Seq<PieceModel>
    decreases bytes.len() - pos,
{
    if pos > bytes.len() {
        Seq::empty()
    } else {
        let rest = bytes.skip(pos as int);
        match regex_first_match(pattern, rest) {
            None => seq![shown_piece(rest, None)],
            Some((start, end)) => if !(0 <= start <= end <= rest.len()) {
                Seq::empty()
            } else {
                let found = seq![
                    shown_piece(rest.take(start), None),
                    shown_piece(rest.subrange(start, end), Some(MATCH_STYLE)),
                ];
                if end == 0 {
                    found + seq![shown_piece(rest, None)]
                } else {
                    found + highlighted(pattern, bytes, (pos + end) as nat)
                }
            },
        }
    }
}

/// The piece that the bytes are shown as.
fn piece_of_bytes(bytes: &[u8], style: Option<usize>) -> (piece: Piece)
    ensures
        piece@ == shown_piece(bytes@, style),
{
    let text = lossy_string(bytes);
    let piece = Piece { text: chars_of(text.as_str()), style };
    assert(piece@ =~= shown_piece(bytes@, style));
    piece
}

/// Cuts a line into pieces in which the matches of the pattern stand out.
pub fn color_matches(line: &str, pattern: &SearchPattern) -> (pieces: Vec<Piece>)
    ensures
        models(pieces@) == highlighted(pattern@, encode_utf8(line@), 0),
{
    let bytes = line.as_bytes();
    let ghost whole = highlighted(pattern@, bytes@, 0);
    let mut pieces: Vec<Piece> = Vec::new();
    let mut pos: usize = 0;
    let mut done = false;
    assert(models(pieces@) + whole =~= whole);
    while !done
        invariant
            pos <= bytes@.len(),
            bytes@ == encode_utf8(line@),
            whole == highlighted(pattern@, bytes@, 0),
            !done ==> models(pieces@) + highlighted(pattern@, bytes@, pos as nat) == whole,
            done ==> models(pieces@) == whole,
        decreases
                (if done {
                    0int
                } else {
                    1int
                }),
                bytes@.len() - pos,
    {
        let rest = &bytes[pos..bytes.len()];
        assert(rest@ =~= bytes@.skip(pos as int));
        let ghost before = models(pieces@);
        match find_first(pattern, rest) {
            None => {
                let tail = piece_of_bytes(rest, None);
                proof {
                    lemma_models_push(pieces@, tail);
                    assert(before.push(tail@) =~= before + seq![tail@]);
                }
                pieces.push(tail);
                done = true;
            },
            Some((start, end)) => {
                let front = piece_of_bytes(&rest[0..start], None);
                let matched = piece_of_bytes(&rest[start..end], Some(MATCH_STYLE));
                assert(rest@.subrange(0, start as int) =~= rest@.take(start as int));
                proof {
                    lemma_models_push(pieces@, front);
                }
                pieces.push(front);
                proof {
                    lemma_models_push(pieces@, matched);
                }
                pieces.push(matched);
                let ghost found = seq![front@, matched@];
                assert(models(pieces@) =~= before + found);
                if end == 0 {
                    let tail = piece_of_bytes(rest, None);
                    proof {
                        lemma_models_push(pieces@, tail);
                        assert((before + found).push(tail@) =~= before + (found + seq![tail@]));
                    }
                    pieces.push(tail);
                    done = true;
                } else {
                    proof {
                        let more = highlighted(pattern@, bytes@, (pos + end) as nat);
                        assert(before + (found + more) =~= (before + found) + more);
                    }
                    pos = pos + end;
                }
            },
        }
    }
    pieces
}

/// The patterns by which the lines of a log are told apart, from the least
/// to the most serious level. Case does not matter to them.
pub open spec fn level_patterns() -> Seq<Seq<char>> {
    seq![
        "(?i)trace"@,
        "(?i)debug"@,
        "(?i)info"@,
        "(?i)warn"@,
        "(?i)error"@,
        "(?i)fatal|critical"@,
    ]
}

/// The level of a line of a log: the number of the first of the patterns
/// from `from` on that the matcher compiles and finds in the line.
pub open spec fn level_of(line: Seq<u8>, patterns: Seq<Seq<char>>, from: nat) -> Option<nat>
    decreases patterns.len() - from,
{
    if from >= patterns.len() {
        None
    } else if regex_compiles(patterns[from as int]) && regex_first_match(
        patterns[from as int],
        line,
    ) is Some {
        Some(from)
    } else {
        level_of(line, patterns, from + 1)
    }
}

/// The patterns of the levels of a log, compiled once.
pub struct LogLevels {
    patterns: Vec<Option<SearchPattern>>,
}

impl LogLevels {
    /// Each pattern is there if and only if the matcher compiles it.
    pub closed spec fn wf(&self) -> bool {
        &&& self.patterns@.len() == level_patterns().len()
        &&& forall|i: int|
            0 <= i < self.patterns@.len() ==> match #[trigger] self.patterns@[i] {
                Some(pattern) => regex_compiles(level_patterns()[i]) && pattern@
                    == level_patterns()[i],
                None => !regex_compiles(level_patterns()[i]),
            }
    }

    /// The pattern compiled, if it compiles.
    fn compiled(pattern: &str) -> (made: Option<SearchPattern>)
        ensures
            match made {
                Some(compiled) => regex_compiles(pattern@) && compiled@ == pattern@,
                None => !regex_compiles(pattern@),
            },
    {
        match SearchPattern::new(pattern) {
            Ok(compiled) => Some(compiled),
            Err(_) => None,
        }
    }

    /// The patterns of the levels, compiled.
    pub fn new() -> (levels: Self)
        ensures
            levels.wf(),
    {
        let mut patterns: Vec<Option<SearchPattern>> = Vec::new();
        patterns.push(Self::compiled("(?i)trace"));
        patterns.push(Self::compiled("(?i)debug"));
        patterns.push(Self::compiled("(?i)info"));
        patterns.push(Self::compiled("(?i)warn"));
        patterns.push(Self::compiled("(?i)error"));
        patterns.push(Self::compiled("(?i)fatal|critical"));
        LogLevels { patterns }
    }

    /// The level of a line of a log, as a number from 0 for a trace to 5
    /// for a fatal error, or none where the line names no level.
    pub fn level(&self, line: &str) -> (level: Option<usize>)
        requires
            self.wf(),
        ensures
            level_of(encode_utf8(line@), level_patterns(), 0) == match level {
                Some(n) => Some(n as nat),
                None => None,
            },
    {
        let bytes = line.as_bytes();
        let mut i: usize = 0;
        while i < self.patterns.len()
            invariant
                self.wf(),
                i <= self.patterns@.len(),
                bytes@ == encode_utf8(line@),
                level_of(bytes@, level_patterns(), 0) == level_of(
                    bytes@,
                    level_patterns(),
                    i as nat,
                ),
            decreases self.patterns@.len() - i,
        {
            if let Some(pattern) = &self.patterns[i] {
                if find_first(pattern, bytes).is_some() {
                    return Some(i);
                }
            }
            i = i + 1;
        }
        None
    }
}

} // verus!
