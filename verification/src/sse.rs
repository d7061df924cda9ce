//! Server-sent events: how a chat completion is streamed over HTTP.
//!
//! A stream is a sequence of frames, each ended by a blank line. A frame holds lines; those that
//! begin with `data: ` carry a JSON document with a piece of the text, or the word `[DONE]`, which
//! ends the stream.

use crate::json::{choice_text, json_parse, parse, read_choice_text, Json};
use crate::text::{chars, flattened, lemma_run_before, lines, run_before, same, split_lines, strip_prefix, texts, trim, trimmed};
use vstd::prelude::*;
use vstd::slice::slice_subrange;
use vstd::utf8::{decode_utf8, decode_utf8_split, is_char_boundary, is_char_boundary_iff_not_is_continuation_byte, is_char_boundary_start_end_of_seq, is_continuation_byte, is_leading_byte_width_2, is_leading_byte_width_3, is_leading_byte_width_4, length_of_first_scalar, pop_first_scalar, valid_first_scalar, valid_utf8, valid_utf8_split};

verus! {

/// The text that bytes stand for, as `String::from_utf8_lossy` reads them.
pub uninterp spec fn lossy_text(bytes: Seq<u8>) -> Seq<char>;

/// `String::from_utf8_lossy`: the text that bytes stand for. Valid UTF-8 is decoded; what becomes
/// of other bytes, for which replacement characters stand in, is not stated.
#[verifier::external_body]
fn read_lossy(bytes: &[u8]) -> (res: String)
    ensures
        res@ == lossy_text(bytes@),
        valid_utf8(bytes@) ==> res@ == decode_utf8(bytes@),
{
    String::from_utf8_lossy(bytes).into_owned()
}

/// `byte` begins a character of at least `width` bytes, of which there are 2 to 4.
pub open spec fn begins(byte: u8, width: int) -> bool {
    ||| width <= 2 && is_leading_byte_width_2(byte)
    ||| width <= 3 && is_leading_byte_width_3(byte)
    ||| width <= 4 && is_leading_byte_width_4(byte)
}

/// How many bytes at the end are the beginning of a character, of which more is to come.
pub open spec fn unfinished(bytes: Seq<u8>) -> nat {
    let n = bytes.len() as int;
    if n >= 1 && begins(bytes[n - 1], 2) {
        1
    } else if n >= 2 && is_continuation_byte(bytes[n - 1]) && begins(bytes[n - 2], 3) {
        2
    } else if n >= 3 && is_continuation_byte(bytes[n - 1]) && is_continuation_byte(bytes[n - 2])
        && begins(bytes[n - 3], 4) {
        3
    } else {
        0
    }
}

/// The bytes up to an unfinished character.
pub open spec fn settled(bytes: Seq<u8>) -> Seq<u8> {
    bytes.take(bytes.len() - unfinished(bytes))
}

/// The bytes of an unfinished character at the end.
pub open spec fn begun(bytes: Seq<u8>) -> Seq<u8> {
    bytes.skip(bytes.len() - unfinished(bytes))
}

/// A whole character at the beginning has no bearing on what is unfinished at the end.
proof fn lemma_unfinished_behind_first(bytes: Seq<u8>)
    requires
        bytes.len() > 0,
        valid_first_scalar(bytes),
    ensures
        unfinished(bytes) == unfinished(pop_first_scalar(bytes)),
{
    let rest = pop_first_scalar(bytes);
    let width = length_of_first_scalar(bytes);
    assert(rest.len() == bytes.len() - width);
    assert(forall|i: int| 0 <= i < rest.len() ==> rest[i] == bytes[i + width]);
}

/// What begins with the same whole character.
proof fn lemma_first_of_prefix(body: Seq<u8>, n: int)
    requires
        body.len() > 0,
        valid_first_scalar(body),
        length_of_first_scalar(body) <= n <= body.len(),
    ensures
        valid_first_scalar(body.take(n)),
        length_of_first_scalar(body.take(n)) == length_of_first_scalar(body),
        pop_first_scalar(body.take(n)) == pop_first_scalar(body).take(
            n - length_of_first_scalar(body),
        ),
{
    let some = body.take(n);
    assert(forall|i: int| 0 <= i < n ==> some[i] == body[i]);
    assert(pop_first_scalar(some) =~= pop_first_scalar(body).take(
        n - length_of_first_scalar(body),
    ));
}

/// Wherever valid text is cut, it is settled up to the border of two characters.
proof fn lemma_settled_at_border(body: Seq<u8>, n: int)
    requires
        valid_utf8(body),
        0 <= n <= body.len(),
    ensures
        unfinished(body.take(n)) <= n,
        is_char_boundary(body, n - unfinished(body.take(n))),
    decreases body.len(),
{
    let some = body.take(n);
    if n > 0 {
        let width = length_of_first_scalar(body);
        assert(forall|i: int| 0 <= i < n ==> some[i] == body[i]);
        if n < width {
            assert(unfinished(some) == n);
        } else {
            lemma_first_of_prefix(body, n);
            lemma_unfinished_behind_first(some);
            lemma_settled_at_border(pop_first_scalar(body), n - width);
        }
    }
}

/// What is unfinished is the same when it is looked at from the border of two characters.
proof fn lemma_unfinished_from_border(body: Seq<u8>, from: int, n: int)
    requires
        valid_utf8(body),
        is_char_boundary(body, from),
        0 <= from <= n <= body.len(),
    ensures
        unfinished(body.subrange(from, n)) == unfinished(body.take(n)),
    decreases body.len(),
{
    if from == 0 {
        assert(body.subrange(0, n) =~= body.take(n));
    } else {
        let width = length_of_first_scalar(body);
        let rest = pop_first_scalar(body);
        assert(from >= width) by {
            reveal_with_fuel(is_char_boundary, 2);
        }
        lemma_first_of_prefix(body, n);
        lemma_unfinished_behind_first(body.take(n));
        lemma_unfinished_from_border(rest, from - width, n - width);
        assert(rest.subrange(from - width, n - width) =~= body.subrange(from, n));
    }
}

/// Valid text between two borders is valid, and reads the same alone.
proof fn lemma_between_borders(body: Seq<u8>, from: int, to: int)
    requires
        valid_utf8(body),
        is_char_boundary(body, from),
        is_char_boundary(body, to),
        0 <= from <= to <= body.len(),
    ensures
        valid_utf8(body.take(from)),
        valid_utf8(body.take(to)),
        valid_utf8(body.subrange(from, to)),
        decode_utf8(body.take(to)) == decode_utf8(body.take(from)) + decode_utf8(
            body.subrange(from, to),
        ),
{
    let some = body.take(to);
    valid_utf8_split(body, to);
    assert(body.subrange(0, to) =~= some);
    if from < to {
        is_char_boundary_iff_not_is_continuation_byte(body, from);
        is_char_boundary_iff_not_is_continuation_byte(some, from);
        assert(some[from] == body[from]);
    } else {
        is_char_boundary_start_end_of_seq(some);
    }
    valid_utf8_split(some, from);
    decode_utf8_split(some, from);
    assert(some.subrange(0, from) =~= body.take(from));
    assert(some.subrange(from, to) =~= body.subrange(from, to));
}

/// What a line of a frame tells.
pub enum Event {
    Nothing,
    /// A piece of the text.
    Token(Seq<char>),
    /// The end of the stream.
    Done,
}

/// What a line of a frame tells: only `data: ` lines tell anything.
pub open spec fn event_of(line: Seq<char>) -> Event {
    if !"data: "@.is_prefix_of(line) {
        Event::Nothing
    } else {
        let data = trimmed(line.skip("data: "@.len() as int));
        if data == "[DONE]"@ {
            Event::Done
        } else {
            match json_parse(data) {
                Some(document) => match choice_text(document, "delta"@) {
                    Some(token) => Event::Token(token),
                    None => Event::Nothing,
                },
                None => Event::Nothing,
            }
        }
    }
}

/// What was read off a stream: the pieces of the text, in order, the characters that are not a
/// whole frame yet, and whether the stream has ended.
#[verifier::ext_equal]
pub struct Reading {
    pub tokens: Seq<Seq<char>>,
    pub rest: Seq<char>,
    pub done: bool,
}

/// What the lines of a frame tell, up to the end of the stream.
pub open spec fn read_lines(list: Seq<Seq<char>>) -> (Seq<Seq<char>>, bool)
    decreases list.len(),
{
    if list.len() == 0 {
        (Seq::empty(), false)
    } else {
        match event_of(list[0]) {
            Event::Done => (Seq::empty(), true),
            Event::Token(token) => {
                let (tokens, done) = read_lines(list.skip(1));
                (seq![token] + tokens, done)
            },
            Event::Nothing => read_lines(list.skip(1)),
        }
    }
}

/// How many characters stand before the first blank line; all of them if there is none.
pub open spec fn before_blank(s: Seq<char>) -> nat
    decreases s.len(),
{
    if s.len() < 2 {
        s.len()
    } else if s[0] == '\n' && s[1] == '\n' {
        0
    } else {
        1 + before_blank(s.skip(1))
    }
}

/// `s` holds a whole frame.
pub open spec fn has_frame(s: Seq<char>) -> bool {
    before_blank(s) + 2 <= s.len()
}

/// What a stream of characters tells: frame after frame, until one ends it or none is whole.
pub open spec fn reading(s: Seq<char>) -> Reading
    decreases s.len(),
{
    if !has_frame(s) {
        Reading { tokens: Seq::empty(), rest: s, done: false }
    } else {
        let end = before_blank(s) as int;
        let (tokens, done) = read_lines(lines(s.take(end)));
        let rest = s.skip(end + 2);
        if done {
            Reading { tokens, rest, done }
        } else {
            let more = reading(rest);
            Reading { tokens: tokens + more.tokens, rest: more.rest, done: more.done }
        }
    }
}

pub proof fn lemma_before_blank(s: Seq<char>)
    ensures
        before_blank(s) <= s.len(),
        has_frame(s) ==> s[before_blank(s) as int] == '\n' && s[before_blank(s) as int + 1] == '\n',
        forall|i: int|
            0 <= i < before_blank(s) && i + 1 < s.len() ==> #[trigger] s[i] != '\n' || s[i + 1]
                != '\n',
        !has_frame(s) ==> before_blank(s) == s.len(),
    decreases s.len(),
{
    if s.len() >= 2 && !(s[0] == '\n' && s[1] == '\n') {
        let rest = s.skip(1);
        lemma_before_blank(rest);
        if has_frame(s) {
            let p = before_blank(rest) as int;
            assert(rest[p] == s[p + 1]);
            assert(rest[p + 1] == s[p + 2]);
        }
        assert forall|i: int| 0 <= i < before_blank(s) && i + 1 < s.len() implies #[trigger] s[i]
            != '\n' || s[i + 1] != '\n' by {
            if i > 0 {
                assert(rest[i - 1] == s[i]);
                assert(rest[i] == s[i + 1]);
            }
        }
    }
}

/// The first blank line stays where it is when more follows.
proof fn lemma_before_blank_extends(a: Seq<char>, b: Seq<char>)
    requires
        has_frame(a),
    ensures
        before_blank(a + b) == before_blank(a),
    decreases a.len(),
{
    let all = a + b;
    assert(all[0] == a[0] && all[1] == a[1]);
    if !(a[0] == '\n' && a[1] == '\n') {
        assert(all.skip(1) =~= a.skip(1) + b);
        lemma_before_blank_extends(a.skip(1), b);
    }
}

/// It does not matter where a stream is cut: reading what has arrived, and then what was left of
/// it together with the rest, tells the same as reading everything at once.
pub proof fn lemma_reading_in_pieces(a: Seq<char>, b: Seq<char>)
    ensures
        ({
            let first = reading(a);
            let second = reading(first.rest + b);
            &&& first.done ==> reading(a + b).tokens == first.tokens && reading(a + b).done
            &&& !first.done ==> reading(a + b) == (Reading {
                tokens: first.tokens + second.tokens,
                rest: second.rest,
                done: second.done,
            })
        }),
    decreases a.len(),
{
    let all = a + b;
    let first = reading(a);
    if has_frame(a) {
        lemma_before_blank_extends(a, b);
        let end = before_blank(a) as int;
        let (tokens, done) = read_lines(lines(a.take(end)));
        assert(all.take(end) =~= a.take(end));
        assert(all.skip(end + 2) =~= a.skip(end + 2) + b);
        if !done {
            lemma_reading_in_pieces(a.skip(end + 2), b);
            let second = reading(first.rest + b);
            if !first.done {
                assert(reading(all).tokens =~= first.tokens + second.tokens);
            }
        }
    } else {
        let second = reading(a + b);
        assert(first.tokens + second.tokens =~= second.tokens);
    }
}

/// The position of the first blank line at or after `from`, if there is one.
fn find_blank(all: &Vec<char>, from: usize) -> (res: Option<usize>)
    requires
        from <= all@.len(),
    ensures
        match res {
            Some(at) => has_frame(all@.skip(from as int)) && at == from + before_blank(
                all@.skip(from as int),
            ),
            None => !has_frame(all@.skip(from as int)),
        },
{
    let mut i: usize = from;
    while all.len() - i >= 2
        invariant
            from <= i <= all@.len(),
            before_blank(all@.skip(from as int)) == i - from + before_blank(all@.skip(i as int)),
        decreases all@.len() - i,
    {
        let ghost left = all@.skip(i as int);
        assert(left[0] == all@[i as int] && left[1] == all@[i + 1]);
        assert(left.skip(1) =~= all@.skip(i + 1));
        if all[i] == '\n' && all[i + 1] == '\n' {
            return Some(i);
        }
        i = i + 1;
    }
    proof {
        assert(all@.skip(i as int).len() < 2);
    }
    None
}

/// What a line tells, as a value: a token, or the end of the stream.
enum LineEvent {
    Nothing,
    Token(String),
    Done,
}

fn read_line(line: &str) -> (res: LineEvent)
    ensures
        match res {
            LineEvent::Nothing => event_of(line@) is Nothing,
            LineEvent::Token(token) => event_of(line@) == Event::Token(token@),
            LineEvent::Done => event_of(line@) is Done,
        },
{
    match strip_prefix(line, "data: ") {
        Some(rest) => {
            let data = trim(rest);
            if same(data, "[DONE]") {
                return LineEvent::Done;
            }
            match parse(data) {
                Ok(document) => match read_choice_text(&document, "delta") {
                    Some(token) => LineEvent::Token(token),
                    None => LineEvent::Nothing,
                },
                Err(_) => LineEvent::Nothing,
            }
        },
        None => LineEvent::Nothing,
    }
}

/// Counts the bytes at the end that are the beginning of a character.
fn count_unfinished(bytes: &Vec<u8>) -> (res: usize)
    ensures
        res == unfinished(bytes@),
        res <= bytes@.len(),
{
    let n = bytes.len();
    if n >= 1 && bytes[n - 1] >= 0xc0 && bytes[n - 1] <= 0xf7 {
        return 1;
    }
    if n >= 2 && bytes[n - 1] >= 0x80 && bytes[n - 1] <= 0xbf {
        if bytes[n - 2] >= 0xe0 && bytes[n - 2] <= 0xf7 {
            return 2;
        }
        if n >= 3 && bytes[n - 2] >= 0x80 && bytes[n - 2] <= 0xbf && bytes[n - 3] >= 0xf0
            && bytes[n - 3] <= 0xf7 {
            return 3;
        }
    }
    0
}

/// A copy of the bytes from `from` on.
fn bytes_from(bytes: &Vec<u8>, from: usize) -> (res: Vec<u8>)
    requires
        from <= bytes@.len(),
    ensures
        res@ == bytes@.skip(from as int),
{
    let mut res: Vec<u8> = Vec::new();
    let mut i: usize = from;
    while i < bytes.len()
        invariant
            from <= i <= bytes@.len(),
            res@ == bytes@.subrange(from as int, i as int),
        decreases bytes@.len() - i,
    {
        res.push(bytes[i]);
        i = i + 1;
        assert(res@ =~= bytes@.subrange(from as int, i as int));
    }
    res
}

/// Puts the pieces of a streamed completion together.
pub struct SseDecoder {
    /// The bytes of a character that has not arrived whole yet.
    pub partial: Vec<u8>,
    /// What has arrived and is not a whole frame yet.
    pub pending: String,
    /// The text so far.
    pub text: String,
    /// The stream has ended.
    pub done: bool,
}

impl SseDecoder {
    /// Nothing has arrived yet.
    pub open spec fn fresh(self) -> bool {
        &&& self.partial@ == Seq::<u8>::empty()
        &&& self.pending@ == Seq::<char>::empty()
        &&& self.text@ == Seq::<char>::empty()
        &&& !self.done
    }

    pub fn new() -> (res: Self)
        ensures
            res.fresh(),
    {
        SseDecoder {
            partial: Vec::new(),
            pending: String::new(),
            text: String::new(),
            done: false,
        }
    }

    /// Taking in `arrived` completes these pieces of text and leaves the decoder as `after`, bytes
    /// of a character that is not whole apart.
    pub open spec fn takes_in(
        self,
        arrived: Seq<char>,
        after: SseDecoder,
        tokens: Seq<String>,
    ) -> bool {
        let told = reading(self.pending@ + arrived);
        &&& texts(tokens) == told.tokens
        &&& after.text@ == self.text@ + flattened(told.tokens)
        &&& after.pending@ == told.rest
        &&& after.done == told.done
    }

    /// Taking in the bytes of `chunk` leaves the decoder as `after` and completes these pieces of
    /// text. The bytes of a character that is not whole yet wait for the next chunk. Once the
    /// stream has ended, nothing is taken in any more.
    pub open spec fn takes_in_bytes(
        self,
        chunk: Seq<u8>,
        after: SseDecoder,
        tokens: Seq<String>,
    ) -> bool {
        let bytes = self.partial@ + chunk;
        if self.done {
            after == self && tokens.len() == 0
        } else {
            &&& after.partial@ == begun(bytes)
            &&& self.takes_in(lossy_text(settled(bytes)), after, tokens)
            &&& valid_utf8(settled(bytes)) ==> self.takes_in(
                decode_utf8(settled(bytes)),
                after,
                tokens,
            )
        }
    }

    /// Takes in bytes that have arrived and returns the pieces of text that they complete. Where
    /// the bytes are cut does not matter, see [`lemma_cuts_do_not_matter`].
    pub fn feed(&mut self, chunk: &[u8]) -> (res: Vec<String>)
        ensures
            old(self).takes_in_bytes(chunk@, *final(self), res@),
    {
        if self.done {
            return Vec::new();
        }
        let ghost bytes = self.partial@ + chunk@;
        self.partial.extend_from_slice(chunk);
        assert(self.partial@ =~= bytes);
        let whole: usize = self.partial.len() - count_unfinished(&self.partial);
        let arrived = read_lossy(slice_subrange(self.partial.as_slice(), 0, whole));
        assert(bytes.subrange(0, whole as int) =~= settled(bytes));
        self.partial = bytes_from(&self.partial, whole);
        self.feed_text(arrived.as_str())
    }

    /// Takes in characters that have arrived and returns the pieces of text that they complete.
    /// Once the stream has ended, nothing is taken in any more.
    pub fn feed_text(&mut self, arrived: &str) -> (res: Vec<String>)
        ensures
            old(self).done ==> res@.len() == 0 && *final(self) == *old(self),
            !old(self).done ==> old(self).takes_in(arrived@, *final(self), res@),
            final(self).partial == old(self).partial,
    {
        let mut tokens: Vec<String> = Vec::new();
        if self.done {
            return tokens;
        }
        let ghost before = self.text@;
        self.pending.append(arrived);
        let all = chars(self.pending.as_str());
        let ghost told = reading(all@);
        let mut i: usize = 0;
        proof {
            assert(all@.skip(0) =~= all@);
            assert(texts(tokens@) =~= Seq::<Seq<char>>::empty());
            assert(Seq::<Seq<char>>::empty() + told.tokens =~= told.tokens);
            assert(flattened(Seq::<Seq<char>>::empty()) =~= Seq::<char>::empty());
            assert(before + Seq::<char>::empty() =~= before);
        }
        let mut ended: bool = false;
        while !ended
            invariant
                self.partial == old(self).partial,
                all@ == self.pending@,
                i <= all@.len(),
                told == reading(all@),
                self.text@ == before + flattened(texts(tokens@)),
                !ended ==> {
                    let left = reading(all@.skip(i as int));
                    told == (Reading {
                        tokens: texts(tokens@) + left.tokens,
                        rest: left.rest,
                        done: left.done,
                    })
                },
                ended ==> told.tokens == texts(tokens@) && told.rest == all@.skip(i as int)
                    && told.done == self.done,
                !ended ==> !self.done,
            decreases all@.len() - i, if ended {
                0int
            } else {
                1int
            },
        {
            let ghost left = all@.skip(i as int);
            match find_blank(&all, i) {
                None => {
                    assert(texts(tokens@) + Seq::<Seq<char>>::empty() =~= texts(tokens@));
                    ended = true;
                },
                Some(at) => {
                    let frame = self.pending.as_str().substring_char(i, at);
                    assert(frame@ =~= left.take(at - i));
                    assert(all@.skip(at + 2) =~= left.skip(at - i + 2));
                    assert(at + 2 <= all.len());
                    let list = split_lines(frame);
                    let ghost told_lines = read_lines(lines(frame@));
                    let ghost tokens0 = texts(tokens@);
                    let ghost more = reading(all@.skip(at + 2));
                    let mut k: usize = 0;
                    proof {
                        lemma_before_blank(left);
                        assert(texts(list@).skip(0) =~= texts(list@));
                        assert(tokens0 + told_lines.0 =~= texts(tokens@) + told_lines.0);
                    }
                    while k < list.len() && !ended
                        invariant
                            self.partial == old(self).partial,
                            k <= list@.len(),
                            !ended ==> tokens0 + told_lines.0 == texts(tokens@) + read_lines(
                                texts(list@).skip(k as int),
                            ).0,
                            !ended ==> told_lines.1 == read_lines(texts(list@).skip(k as int)).1,
                            ended ==> told_lines.1 && tokens0 + told_lines.0 == texts(tokens@),
                            self.text@ == before + flattened(texts(tokens@)),
                            self.pending@ == all@,
                            self.done == ended,
                        decreases list@.len() - k,
                    {
                        let ghost lines_left = texts(list@).skip(k as int);
                        let ghost so_far = texts(tokens@);
                        assert(lines_left[0] == list@[k as int]@);
                        assert(lines_left.skip(1) =~= texts(list@).skip(k + 1));
                        match read_line(list[k].as_str()) {
                            LineEvent::Nothing => {},
                            LineEvent::Token(token) => {
                                self.text.append(token.as_str());
                                proof {
                                    lemma_flattened_push(so_far, token@);
                                    assert(before + (flattened(so_far) + token@) =~= before
                                        + flattened(so_far) + token@);
                                    assert(so_far + (seq![token@] + read_lines(
                                        texts(list@).skip(k + 1),
                                    ).0) =~= so_far.push(token@) + read_lines(
                                        texts(list@).skip(k + 1),
                                    ).0);
                                }
                                tokens.push(token);
                                assert(texts(tokens@) =~= so_far.push(token@));
                            },
                            LineEvent::Done => {
                                assert(so_far + Seq::<Seq<char>>::empty() =~= so_far);
                                self.done = true;
                                ended = true;
                            },
                        }
                        k = k + 1;
                    }
                    proof {
                        if !ended {
                            let none = texts(list@).skip(k as int);
                            assert(none.len() == 0);
                            assert(texts(tokens@) + read_lines(none).0 =~= texts(tokens@));
                            assert(tokens0 + (told_lines.0 + more.tokens) =~= texts(tokens@)
                                + more.tokens);
                        }
                    }
                    i = at + 2;
                },
            }
        }
        let rest = self.pending.as_str().substring_char(i, all.len()).to_owned();
        assert(rest@ =~= all@.skip(i as int));
        self.pending = rest;
        tokens
    }
}

/// What a body of bytes tells that ends where `bytes` ends.
pub open spec fn told_by(bytes: Seq<u8>) -> Reading {
    reading(decode_utf8(settled(bytes)))
}

/// The decoder has taken in `bytes`, and nothing else.
pub open spec fn has_taken_in(decoder: SseDecoder, bytes: Seq<u8>) -> bool {
    let told = told_by(bytes);
    &&& decoder.text@ == flattened(told.tokens)
    &&& decoder.done == told.done
    &&& !told.done ==> decoder.pending@ == told.rest && decoder.partial@ == begun(bytes)
}

/// One chunk of a valid body more: what was begun and the chunk, read alone, go on where what was
/// settled ends.
proof fn lemma_chunk_settles(body: Seq<u8>, bytes: Seq<u8>, chunk: Seq<u8>)
    requires
        valid_utf8(body),
        (bytes + chunk).is_prefix_of(body),
    ensures
        valid_utf8(settled(begun(bytes) + chunk)),
        decode_utf8(settled(bytes + chunk)) == decode_utf8(settled(bytes)) + decode_utf8(
            settled(begun(bytes) + chunk),
        ),
        begun(begun(bytes) + chunk) == begun(bytes + chunk),
{
    let all = bytes + chunk;
    let m = bytes.len() as int;
    let n = all.len() as int;
    assert(body.take(n) =~= all);
    assert(body.take(m) =~= bytes);
    lemma_settled_at_border(body, m);
    lemma_settled_at_border(body, n);
    let from = m - unfinished(bytes);
    let to = n - unfinished(all);
    lemma_unfinished_from_border(body, from, n);
    let left = begun(bytes) + chunk;
    assert(left =~= all.skip(from));
    assert(left =~= body.subrange(from, n));
    assert(settled(bytes) =~= body.take(from));
    assert(settled(all) =~= body.take(to));
    assert(settled(left) =~= body.subrange(from, to));
    assert(begun(left) =~= begun(all));
    lemma_between_borders(body, from, to);
}

/// One chunk of a valid body more: the decoder then stands where it would if everything so far had
/// come at once, and has handed out the same pieces of text.
pub proof fn lemma_one_chunk_more(
    body: Seq<u8>,
    bytes: Seq<u8>,
    chunk: Seq<u8>,
    before: SseDecoder,
    after: SseDecoder,
    tokens: Seq<String>,
)
    requires
        valid_utf8(body),
        (bytes + chunk).is_prefix_of(body),
        has_taken_in(before, bytes),
        before.takes_in_bytes(chunk, after, tokens),
    ensures
        has_taken_in(after, bytes + chunk),
        told_by(bytes + chunk).tokens == told_by(bytes).tokens + texts(tokens),
{
    let left = begun(bytes) + chunk;
    lemma_chunk_settles(body, bytes, chunk);
    lemma_reading_in_pieces(decode_utf8(settled(bytes)), decode_utf8(settled(left)));
    let first = told_by(bytes);
    if first.done {
        assert(first.tokens + texts(tokens) =~= first.tokens);
    } else {
        lemma_flattened_concat(first.tokens, texts(tokens));
    }
}

/// The chunks one after the other.
pub open spec fn all_bytes(chunks: Seq<Seq<u8>>) -> Seq<u8>
    decreases chunks.len(),
{
    if chunks.len() == 0 {
        Seq::empty()
    } else {
        all_bytes(chunks.drop_last()) + chunks.last()
    }
}

/// Everything that was handed out, in order.
pub open spec fn all_texts(lists: Seq<Seq<String>>) -> Seq<Seq<char>>
    decreases lists.len(),
{
    if lists.len() == 0 {
        Seq::empty()
    } else {
        all_texts(lists.drop_last()) + texts(lists.last())
    }
}

/// A new decoder takes in `chunks`, one after the other: `states` are those that it goes through,
/// and `lists` the pieces of text that it hands out at each step.
pub open spec fn runs(
    states: Seq<SseDecoder>,
    chunks: Seq<Seq<u8>>,
    lists: Seq<Seq<String>>,
) -> bool {
    &&& states.len() == chunks.len() + 1
    &&& lists.len() == chunks.len()
    &&& states[0].fresh()
    &&& forall|i: int|
        0 <= i < chunks.len() ==> states[i].takes_in_bytes(
            #[trigger] chunks[i],
            states[i + 1],
            lists[i],
        )
}

/// Where a valid body is cut does not matter, inside a character neither: the pieces of text that
/// are handed out, the text they add up to and whether the stream has ended are what the body tells
/// as a whole.
pub proof fn lemma_cuts_do_not_matter(
    states: Seq<SseDecoder>,
    chunks: Seq<Seq<u8>>,
    lists: Seq<Seq<String>>,
)
    requires
        runs(states, chunks, lists),
        valid_utf8(all_bytes(chunks)),
    ensures
        ({
            let told = reading(decode_utf8(all_bytes(chunks)));
            &&& all_texts(lists) == told.tokens
            &&& states.last().text@ == flattened(told.tokens)
            &&& states.last().done == told.done
        }),
{
    let body = all_bytes(chunks);
    lemma_run_so_far(body, states, chunks, lists);
    lemma_nothing_unfinished(body);
    assert(settled(body) =~= body);
}

/// Two ways to cut one valid body come to the same.
pub proof fn lemma_two_ways_to_cut(
    states: Seq<SseDecoder>,
    chunks: Seq<Seq<u8>>,
    lists: Seq<Seq<String>>,
    other_states: Seq<SseDecoder>,
    other_chunks: Seq<Seq<u8>>,
    other_lists: Seq<Seq<String>>,
)
    requires
        runs(states, chunks, lists),
        runs(other_states, other_chunks, other_lists),
        all_bytes(chunks) == all_bytes(other_chunks),
        valid_utf8(all_bytes(chunks)),
    ensures
        all_texts(lists) == all_texts(other_lists),
        states.last().text@ == other_states.last().text@,
        states.last().done == other_states.last().done,
{
    lemma_cuts_do_not_matter(states, chunks, lists);
    lemma_cuts_do_not_matter(other_states, other_chunks, other_lists);
}

proof fn lemma_run_so_far(
    body: Seq<u8>,
    states: Seq<SseDecoder>,
    chunks: Seq<Seq<u8>>,
    lists: Seq<Seq<String>>,
)
    requires
        runs(states, chunks, lists),
        valid_utf8(body),
        all_bytes(chunks).is_prefix_of(body),
    ensures
        has_taken_in(states.last(), all_bytes(chunks)),
        told_by(all_bytes(chunks)).tokens == all_texts(lists),
    decreases chunks.len(),
{
    if chunks.len() == 0 {
        let none = Seq::<u8>::empty();
        assert(settled(none) =~= none);
        assert(begun(none) =~= none);
        assert(decode_utf8(none) =~= Seq::<char>::empty());
    } else {
        let k = chunks.len() - 1;
        let earlier = chunks.drop_last();
        assert forall|i: int| 0 <= i < earlier.len() implies states.drop_last()[i].takes_in_bytes(
            #[trigger] earlier[i],
            states.drop_last()[i + 1],
            lists.drop_last()[i],
        ) by {
            assert(chunks[i] == earlier[i]);
        }
        assert(all_bytes(earlier).is_prefix_of(body));
        lemma_run_so_far(body, states.drop_last(), earlier, lists.drop_last());
        assert(states[k].takes_in_bytes(chunks[k], states[k + 1], lists[k]));
        lemma_one_chunk_more(
            body,
            all_bytes(earlier),
            chunks[k],
            states[k],
            states[k + 1],
            lists[k],
        );
    }
}

/// At the end of valid text nothing is unfinished.
proof fn lemma_nothing_unfinished(body: Seq<u8>)
    requires
        valid_utf8(body),
    ensures
        unfinished(body) == 0,
    decreases body.len(),
{
    if body.len() > 0 {
        lemma_unfinished_behind_first(body);
        lemma_nothing_unfinished(pop_first_scalar(body));
    }
}

/// Two lists of texts, one after the other.
pub proof fn lemma_flattened_concat(a: Seq<Seq<char>>, b: Seq<Seq<char>>)
    ensures
        flattened(a + b) == flattened(a) + flattened(b),
    decreases a.len(),
{
    if a.len() == 0 {
        assert(a + b =~= b);
        assert(flattened(a) + flattened(b) =~= flattened(b));
    } else {
        assert((a + b).skip(1) =~= a.skip(1) + b);
        lemma_flattened_concat(a.skip(1), b);
        assert(flattened(a + b) =~= flattened(a) + flattened(b));
    }
}

/// One more piece.
pub proof fn lemma_flattened_push(list: Seq<Seq<char>>, item: Seq<char>)
    ensures
        flattened(list.push(item)) == flattened(list) + item,
    decreases list.len(),
{
    let all = list.push(item);
    if list.len() == 0 {
        assert(all.skip(1) =~= Seq::<Seq<char>>::empty());
        assert(flattened(all.skip(1)) =~= Seq::<char>::empty());
        assert(flattened(all) =~= item);
        assert(flattened(list) + item =~= item);
    } else {
        assert(all.skip(1) =~= list.skip(1).push(item));
        lemma_flattened_push(list.skip(1), item);
        assert(flattened(all) =~= flattened(list) + item);
    }
}

/// A frame of one line.
proof fn lemma_frame_of_one_line(line: Seq<char>)
    requires
        !line.contains('\n'),
        line.len() > 0,
    ensures
        reading(line + seq!['\n', '\n']) == (match event_of(line) {
            Event::Nothing => Reading {
                tokens: Seq::empty(),
                rest: Seq::empty(),
                done: false,
            },
            Event::Token(token) => Reading {
                tokens: seq![token],
                rest: Seq::empty(),
                done: false,
            },
            Event::Done => Reading { tokens: Seq::empty(), rest: Seq::empty(), done: true },
        }),
{
    let s = line + seq!['\n', '\n'];
    let n = line.len() as int;
    lemma_before_blank(s);
    assert(before_blank(s) == n) by {
        let b = before_blank(s) as int;
        if b < n {
            assert(s[b] == '\n');
            assert(line[b] == '\n');
        }
        if b > n {
            assert(s[n] == '\n' && s[n + 1] == '\n');
        }
    }
    assert(s.take(n) =~= line);
    assert(s.skip(n + 2) =~= Seq::<char>::empty());
    lemma_run_before(line, '\n');
    if run_before(line, '\n') < line.len() {
        assert(line[run_before(line, '\n') as int] == '\n');
    }
    assert(lines(line) == seq![line]);
    let none = Seq::<Seq<char>>::empty();
    assert(seq![line].skip(1) =~= none);
    assert(read_lines(none) == (none, false));
    let nothing = Reading { tokens: none, rest: Seq::empty(), done: false };
    assert(!has_frame(Seq::<char>::empty()));
    assert(reading(Seq::<char>::empty()) == nothing);
    assert(seq![line][0] == line);
    let told = read_lines(seq![line]);
    match event_of(line) {
        Event::Token(token) => {
            assert(told.0 =~= seq![token] && !told.1);
            assert(seq![token] + none =~= seq![token]);
            assert(reading(s).tokens =~= seq![token]);
        },
        Event::Nothing => {
            assert(told == (none, false));
            assert(none + none =~= none);
        },
        Event::Done => {
            assert(told == (none, true));
        },
    }
}

/// What one line of a stream does, with the blank line behind it. A `data: ` line whose document has
/// a text at `choices`, 0, `delta`, `content` hands out exactly that text and adds it; one that says
/// `[DONE]` ends the stream; any other line does nothing.
pub proof fn lemma_line_is_taken_in(
    decoder: &mut SseDecoder,
    line: Seq<char>,
    arrived: &str,
    res: Vec<String>,
)
    requires
        call_ensures(SseDecoder::feed_text, (decoder, arrived), res),
        !old(decoder).done,
        old(decoder).pending@.len() == 0,
        !line.contains('\n'),
        line.len() > 0,
        arrived@ == line + seq!['\n', '\n'],
    ensures
        final(decoder).pending@.len() == 0,
        ({
            let data = trimmed(line.skip("data: "@.len() as int));
            let content = if json_parse(data) is Some {
                json_parse(data)->0.at("choices"@).item(0).at("delta"@).at("content"@)
            } else {
                Json::Null
            };
            let speaks = "data: "@.is_prefix_of(line);
            let ends = speaks && data == "[DONE]"@;
            &&& final(decoder).done == ends
            &&& speaks && !ends && content is Text ==> res@.len() == 1 && res@[0]@ == content->Text_0
                && final(decoder).text@ == old(decoder).text@ + content->Text_0
            &&& ends || !speaks || !(content is Text) ==> res@.len() == 0 && final(decoder).text@
                == old(decoder).text@
        }),
{
    lemma_frame_of_one_line(line);
    assert(old(decoder).pending@ + arrived@ =~= line + seq!['\n', '\n']);
    let told = reading(line + seq!['\n', '\n']);
    assert(texts(res@).len() == res@.len());
    assert(flattened(Seq::<Seq<char>>::empty()) =~= Seq::<char>::empty());
    assert(old(decoder).text@ + Seq::<char>::empty() =~= old(decoder).text@);
    if let Event::Token(token) = event_of(line) {
        lemma_flattened_push(Seq::empty(), token);
        assert(Seq::<Seq<char>>::empty().push(token) =~= seq![token]);
        assert(Seq::<char>::empty() + token =~= token);
        assert(texts(res@)[0] == res@[0]@);
    }
}

/// What has not ended with a blank line yet waits: it is kept, and nothing is handed out.
pub proof fn lemma_unfinished_frames_wait(decoder: &mut SseDecoder, arrived: &str, res: Vec<String>)
    requires
        call_ensures(SseDecoder::feed_text, (decoder, arrived), res),
        !old(decoder).done,
        forall|i: int|
            0 <= i < (old(decoder).pending@ + arrived@).len() - 1 ==> (#[trigger] (
            old(decoder).pending@ + arrived@)[i] != '\n' || (old(decoder).pending@ + arrived@)[i + 1]
                != '\n'),
    ensures
        res@.len() == 0,
        final(decoder).pending@ == old(decoder).pending@ + arrived@,
        final(decoder).text@ == old(decoder).text@,
        !final(decoder).done,
{
    let s = old(decoder).pending@ + arrived@;
    lemma_before_blank(s);
    if has_frame(s) {
        let b = before_blank(s) as int;
        assert(s[b] == '\n' && s[b + 1] == '\n');
    }
    assert(texts(res@).len() == res@.len());
    assert(flattened(Seq::<Seq<char>>::empty()) =~= Seq::<char>::empty());
    assert(old(decoder).text@ + Seq::<char>::empty() =~= old(decoder).text@);
}

/// Taking in characters in two goes comes to the same as taking them in at once: the same pieces of
/// text are handed out, in order, and the decoder has the same text and has seen the end or not; and
/// while it has not, it keeps the same.
pub proof fn lemma_two_goes_are_one(
    first: &mut SseDecoder,
    a: &str,
    first_tokens: Vec<String>,
    second: &mut SseDecoder,
    b: &str,
    second_tokens: Vec<String>,
    whole: &mut SseDecoder,
    all: &str,
    tokens: Vec<String>,
)
    requires
        call_ensures(SseDecoder::feed_text, (first, a), first_tokens),
        call_ensures(SseDecoder::feed_text, (second, b), second_tokens),
        call_ensures(SseDecoder::feed_text, (whole, all), tokens),
        all@ == a@ + b@,
    ensures
        *old(second) == *final(first) && *old(whole) == *old(first) ==> {
            &&& texts(tokens@) == texts(first_tokens@) + texts(second_tokens@)
            &&& final(whole).text@ == final(second).text@
            &&& final(whole).done == final(second).done
            &&& !final(whole).done ==> final(whole).pending@ == final(second).pending@
        },
{
    if *old(second) == *final(first) && *old(whole) == *old(first) {
        let start = old(first).pending@ + a@;
        assert(old(first).pending@ + all@ =~= start + b@);
        if old(first).done {
            assert(texts(tokens@) =~= Seq::<Seq<char>>::empty());
            assert(texts(first_tokens@) =~= Seq::<Seq<char>>::empty());
            assert(texts(second_tokens@) =~= Seq::<Seq<char>>::empty());
            assert(texts(tokens@) =~= texts(first_tokens@) + texts(second_tokens@));
        } else {
            lemma_reading_in_pieces(start, b@);
            let one = reading(start);
            if one.done {
                assert(texts(second_tokens@) =~= Seq::<Seq<char>>::empty());
                assert(texts(first_tokens@) + texts(second_tokens@) =~= texts(first_tokens@));
            } else {
                let two = reading(one.rest + b@);
                lemma_flattened_concat(one.tokens, two.tokens);
                assert(old(first).text@ + (flattened(one.tokens) + flattened(two.tokens)) =~= old(
                    first,
                ).text@ + flattened(one.tokens) + flattened(two.tokens));
            }
        }
    }
}

/// Two lines of one frame tell what they would tell in frames of their own.
pub proof fn lemma_lines_of_a_frame(a: Seq<char>, b: Seq<char>)
    requires
        a.len() > 0,
        b.len() > 0,
        !a.contains('\n'),
        !b.contains('\n'),
        a.last() != '\r',
    ensures
        reading(a + seq!['\n'] + b + seq!['\n', '\n']).tokens == reading(
            a + seq!['\n', '\n'] + (b + seq!['\n', '\n']),
        ).tokens,
        reading(a + seq!['\n'] + b + seq!['\n', '\n']).done == reading(
            a + seq!['\n', '\n'] + (b + seq!['\n', '\n']),
        ).done,
{
    let frame = a + seq!['\n'] + b;
    let s = frame + seq!['\n', '\n'];
    let n = frame.len() as int;
    let m = a.len() as int;
    lemma_frame_of_one_line(a);
    lemma_frame_of_one_line(b);
    lemma_reading_in_pieces(a + seq!['\n', '\n'], b + seq!['\n', '\n']);
    lemma_before_blank(s);
    assert(before_blank(s) == n) by {
        let k = before_blank(s) as int;
        if k < n {
            assert(s[k] == '\n' && s[k + 1] == '\n');
            if k < m {
                assert(a[k] == '\n');
            } else if k == m {
                assert(s[k + 1] == b[0]);
                assert(b.contains(b[0]));
            } else {
                assert(b[k - m - 1] == '\n');
            }
        }
        if k > n {
            assert(s[n] == '\n' && s[n + 1] == '\n');
        }
    }
    assert(s.take(n) =~= frame);
    assert(s.skip(n + 2) =~= Seq::<char>::empty());
    lemma_run_before(frame, '\n');
    assert(run_before(frame, '\n') == m) by {
        let k = run_before(frame, '\n') as int;
        if k < m {
            assert(frame[k] == a[k]);
            assert(a.contains('\n'));
        }
        if k > m {
            assert(frame[m] == '\n');
        }
    }
    assert(frame.take(m) =~= a);
    assert(frame.skip(m + 1) =~= b);
    lemma_run_before(b, '\n');
    if run_before(b, '\n') < b.len() {
        assert(b[run_before(b, '\n') as int] == '\n');
    }
    assert(lines(b) == seq![b]);
    assert(lines(frame) =~= seq![a, b]);
    let none = Seq::<Seq<char>>::empty();
    assert(seq![a, b].skip(1) =~= seq![b]);
    assert(seq![b].skip(1) =~= none);
    assert(read_lines(none) == (none, false));
    assert(!has_frame(Seq::<char>::empty()));
    let told = read_lines(seq![a, b]);
    let last = read_lines(seq![b]);
    assert(seq![a, b][0] == a && seq![b][0] == b);
    assert(last == (match event_of(b) {
        Event::Nothing => (none, false),
        Event::Token(token) => (seq![token] + none, false),
        Event::Done => (none, true),
    }));
    let rest = reading(Seq::<char>::empty());
    assert(rest.tokens =~= none);
    assert(reading(s).tokens =~= told.0);
    let first = reading(a + seq!['\n', '\n']);
    assert(first.rest + (b + seq!['\n', '\n']) =~= b + seq!['\n', '\n']);
    let second = reading(b + seq!['\n', '\n']);
    if !first.done {
        assert(told.0 =~= first.tokens + second.tokens);
    }
}

/// The bytes of a stream are taken in as the characters that they encode, wherever they are cut: a
/// new decoder that is fed a valid body in two chunks, of which the first may end inside a
/// character, hands out the same pieces of text, and has the same text and end, as one that is fed
/// the characters.
pub proof fn lemma_bytes_are_characters(
    first: &mut SseDecoder,
    a: &[u8],
    first_tokens: Vec<String>,
    second: &mut SseDecoder,
    b: &[u8],
    second_tokens: Vec<String>,
    whole: &mut SseDecoder,
    all: &str,
    tokens: Vec<String>,
)
    requires
        call_ensures(SseDecoder::feed, (first, a), first_tokens),
        call_ensures(SseDecoder::feed, (second, b), second_tokens),
        call_ensures(SseDecoder::feed_text, (whole, all), tokens),
        old(first).partial@.len() == 0,
        old(first).pending@.len() == 0,
        old(first).text@.len() == 0,
        !old(first).done,
        valid_utf8(a@ + b@),
        all@ == decode_utf8(a@ + b@),
    ensures
        *old(second) == *final(first) && *old(whole) == *old(first) ==> {
            &&& texts(tokens@) == texts(first_tokens@) + texts(second_tokens@)
            &&& final(whole).text@ == final(second).text@
            &&& final(whole).done == final(second).done
        },
{
    if *old(second) == *final(first) && *old(whole) == *old(first) {
        let states = seq![*old(first), *final(first), *final(second)];
        let chunks = seq![a@, b@];
        let lists = seq![first_tokens@, second_tokens@];
        assert(old(first).partial@ =~= Seq::<u8>::empty());
        assert(old(first).pending@ =~= Seq::<char>::empty());
        assert(old(first).text@ =~= Seq::<char>::empty());
        assert forall|i: int| 0 <= i < chunks.len() implies states[i].takes_in_bytes(
            #[trigger] chunks[i],
            states[i + 1],
            lists[i],
        ) by {
            if i == 0 {
                assert(old(first).takes_in_bytes(a@, *final(first), first_tokens@));
            } else {
                assert(old(second).takes_in_bytes(b@, *final(second), second_tokens@));
            }
        }
        assert(chunks.drop_last() =~= seq![a@]);
        assert(chunks.drop_last().drop_last() =~= Seq::<Seq<u8>>::empty());
        assert(all_bytes(seq![a@].drop_last()) =~= Seq::<u8>::empty());
        assert(all_bytes(seq![a@]) =~= a@);
        assert(all_bytes(chunks) =~= a@ + b@);
        assert(lists.drop_last() =~= seq![first_tokens@]);
        assert(lists.drop_last().drop_last() =~= Seq::<Seq<String>>::empty());
        assert(all_texts(seq![first_tokens@].drop_last()) =~= Seq::<Seq<char>>::empty());
        assert(all_texts(seq![first_tokens@]) =~= texts(first_tokens@));
        assert(all_texts(lists) =~= texts(first_tokens@) + texts(second_tokens@));
        lemma_cuts_do_not_matter(states, chunks, lists);
        assert(old(whole).pending@ + all@ =~= all@);
        assert(old(whole).text@ + flattened(reading(all@).tokens) =~= flattened(
            reading(all@).tokens,
        ));
    }
}

/// Of the bytes that have arrived, at most three are held back, those at the end, and none if the
/// last is a character by itself; all before them are taken in as the text that they stand for.
pub proof fn lemma_little_is_held_back(
    decoder: &mut SseDecoder,
    chunk: &[u8],
    res: Vec<String>,
    whole: &mut SseDecoder,
    arrived: &str,
    tokens: Vec<String>,
)
    requires
        call_ensures(SseDecoder::feed, (decoder, chunk), res),
        call_ensures(SseDecoder::feed_text, (whole, arrived), tokens),
        !old(decoder).done,
        old(decoder).partial@.len() + chunk@.len() >= final(decoder).partial@.len(),
        arrived@ == lossy_text(
            (old(decoder).partial@ + chunk@).take(
                old(decoder).partial@.len() + chunk@.len() - final(decoder).partial@.len(),
            ),
        ),
    ensures
        final(decoder).partial@.len() <= 3,
        final(decoder).partial@ == (old(decoder).partial@ + chunk@).skip(
            old(decoder).partial@.len() + chunk@.len() - final(decoder).partial@.len(),
        ),
        chunk@.len() > 0 && chunk@.last() < 0x80 ==> final(decoder).partial@.len() == 0,
        old(whole).pending@ == old(decoder).pending@ && old(whole).text@ == old(decoder).text@ && !old(
            whole,
        ).done ==> {
            &&& texts(res@) == texts(tokens@)
            &&& final(decoder).text@ == final(whole).text@
            &&& final(decoder).pending@ == final(whole).pending@
            &&& final(decoder).done == final(whole).done
        },
{
    let bytes = old(decoder).partial@ + chunk@;
    assert(begun(bytes).len() == unfinished(bytes));
    assert(final(decoder).partial@ == begun(bytes));
    if chunk@.len() > 0 {
        assert(bytes.last() == chunk@.last());
        assert(bytes.last() == bytes[bytes.len() - 1]);
    }
}

} // verus!
