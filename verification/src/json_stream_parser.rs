//! Streaming, chunk-resumable JSON tokenizer.
//!
//! Input arrives as arbitrary byte slices; chunk boundaries may fall in the
//! middle of any token. The parser keeps undigested bytes in an internal
//! buffer, records suspended grammar frames on an explicit state stack, and
//! appends structural events to an event list as they complete, so parsing
//! can stop at any byte boundary and resume with the next chunk.
//!
//! Escape sequences inside strings are not interpreted: a string ends at the
//! first `"` byte, and backslashes are passed through unchanged. Numbers are
//! emitted as their source text; the grammar admitted is exactly the standard
//! float grammar over the bytes `0`-`9`, `.`, `-`, `e`, `E`.

use vstd::prelude::*;
use vstd::utf8::{decode_utf8, encode_utf8, valid_utf8};

verus! {

/// A structural event. `String`, `Key` and `Number` carry their text; a
/// number's text includes its leading minus sign and can be handed to any
/// float parser.
#[derive(Debug)]
pub enum JsonEvent {
    Null,
    Bool(bool),
    Number(String),
    String(String),
    StartObject,
    EndObject,
    StartArray,
    EndArray,
    Key(String),
}

/// The text carried by a `String`, `Key` or `Number` event.
pub open spec fn payload_of(e: JsonEvent) -> Seq<char> {
    match e {
        JsonEvent::Number(s) => s@,
        JsonEvent::String(s) => s@,
        JsonEvent::Key(s) => s@,
        _ => Seq::empty(),
    }
}

impl PartialEq for JsonEvent {
    fn eq(&self, other: &Self) -> (r: bool) {
        match (self, other) {
            (JsonEvent::Null, JsonEvent::Null) => true,
            (JsonEvent::Bool(a), JsonEvent::Bool(b)) => *a == *b,
            (JsonEvent::Number(a), JsonEvent::Number(b)) => *a == *b,
            (JsonEvent::String(a), JsonEvent::String(b)) => *a == *b,
            (JsonEvent::StartObject, JsonEvent::StartObject) => true,
            (JsonEvent::EndObject, JsonEvent::EndObject) => true,
            (JsonEvent::StartArray, JsonEvent::StartArray) => true,
            (JsonEvent::EndArray, JsonEvent::EndArray) => true,
            (JsonEvent::Key(a), JsonEvent::Key(b)) => *a == *b,
            _ => false,
        }
    }
}

impl vstd::std_specs::cmp::PartialEqSpecImpl for JsonEvent {
    open spec fn obeys_eq_spec() -> bool {
        true
    }

    open spec fn eq_spec(&self, other: &Self) -> bool {
        match (self, other) {
            (JsonEvent::Null, JsonEvent::Null) => true,
            (JsonEvent::Bool(a), JsonEvent::Bool(b)) => a == b,
            (JsonEvent::Number(a), JsonEvent::Number(b)) => a@ == b@,
            (JsonEvent::String(a), JsonEvent::String(b)) => a@ == b@,
            (JsonEvent::StartObject, JsonEvent::StartObject) => true,
            (JsonEvent::EndObject, JsonEvent::EndObject) => true,
            (JsonEvent::StartArray, JsonEvent::StartArray) => true,
            (JsonEvent::EndArray, JsonEvent::EndArray) => true,
            (JsonEvent::Key(a), JsonEvent::Key(b)) => a@ == b@,
            _ => false,
        }
    }
}

/// Why parsing failed. Errors are terminal: after an error the parser's
/// behaviour on further `parse` calls is unspecified.
#[derive(Debug)]
pub enum JsonStreamParseError {
    UnexpectedEndOfInput,
    UnexpectedChar(char),
    InvalidArray(String),
    InvalidObject(String),
    InvalidLiteral(String),
    InvalidBoolean,
    InvalidNumber,
}

/// One suspended grammar frame.
#[derive(Clone, Copy, PartialEq, Eq, Structural)]
enum ParserState {
    StringVal,
    Array,
    Object(bool),
    ObjectKey,
    ObjectValue,
    ObjectColon,
    Num(bool),
    True,
    False,
    Null,
}

/// Buffer capacity under which appends are done in place; beyond it the
/// digested prefix is discarded first.
const BUF_CAP: usize = 32768;

/// Relies on String::from_utf8: it succeeds exactly on valid UTF-8 input,
/// and the returned string holds exactly the given bytes.
#[verifier::external_body]
fn bytes_to_string(v: Vec<u8>) -> (r: Option<String>)
    ensures
        r is Some <==> valid_utf8(v@),
        r matches Some(s) ==> s@ == decode_utf8(v@) && encode_utf8(s@) == v@,
{
    String::from_utf8(v).ok()
}

/// Streaming JSON tokenizer. Feed byte chunks with [`Self::parse`]; collect
/// events with [`Self::events`] or [`Self::take_events`].
pub struct JsonStreamParser {
    buffer: Vec<u8>,
    start_pos: usize,
    offset: usize,
    states: Vec<ParserState>,
    events: Vec<JsonEvent>,
    input: Ghost<Seq<u8>>,
    dropped: Ghost<int>,
}

impl JsonStreamParser {
    /// Every byte ever fed to the parser, in order.
    pub closed spec fn fed(&self) -> Seq<u8> {
        self.input@
    }

    /// The events emitted so far and not yet taken.
    pub closed spec fn sevents(&self) -> Seq<JsonEvent> {
        self.events@
    }

    /// Whether the parser stands between top-level values: nothing is
    /// suspended and every digested byte may be discarded.
    pub closed spec fn idle(&self) -> bool {
        self.states@.len() == 0
    }

    /// How many of the fed bytes the parser has examined.
    pub closed spec fn examined(&self) -> int {
        self.dropped@ + self.offset
    }

    /// Nothing suspended and every fed byte examined and digested: the state
    /// of a fresh parser, and of one that has just finished a document with
    /// no bytes to spare.
    pub closed spec fn drained(&self) -> bool {
        self.states@.len() == 0 && self.start_pos == self.offset && self.offset
            == self.buffer@.len()
    }

    /// Buffer well-formedness: the undigested bytes are a suffix of the fed
    /// input, and the cursors are ordered within the buffer.
    pub closed spec fn wf(&self) -> bool {
        &&& 0 <= self.dropped@
        &&& self.dropped@ + self.buffer@.len() == self.input@.len()
        &&& self.buffer@ == self.input@.subrange(self.dropped@, self.input@.len() as int)
        &&& self.start_pos <= self.offset <= self.buffer@.len()
    }

    /// When the stack is empty or a structural frame is on top, the parser is
    /// about to dispatch a fresh token, and the token cursor has caught up
    /// with the read cursor.
    pub closed spec fn ready(&self) -> bool {
        (self.states@.len() == 0 || match self.states@.last() {
            ParserState::Array => true,
            ParserState::Object(_) => true,
            ParserState::ObjectValue => true,
            ParserState::ObjectColon => true,
            _ => false,
        }) ==> self.start_pos == self.offset
    }

    /// Internal steps leave the buffer and the fed input alone, only append
    /// events, and never move the read cursor backwards.
    spec fn steady(pre: Self, post: Self) -> bool {
        &&& post.buffer@ == pre.buffer@
        &&& post.input@ == pre.input@
        &&& post.dropped@ == pre.dropped@
        &&& pre.events@.is_prefix_of(post.events@)
        &&& pre.offset <= post.offset
    }

    /// Creates a parser with no input fed yet.
    pub fn new() -> (p: Self)
        ensures
            p.wf(),
            p.ready(),
            p.idle(),
            p.drained(),
            p.fed() == Seq::<u8>::empty(),
            p.sevents() == Seq::<JsonEvent>::empty(),
    {
        let p = Self {
            buffer: Vec::with_capacity(BUF_CAP),
            start_pos: 0,
            offset: 0,
            states: Vec::with_capacity(16),
            events: Vec::new(),
            input: Ghost(Seq::empty()),
            dropped: Ghost(0),
        };
        proof {
            assert(p.buffer@ =~= p.input@.subrange(0, 0));
        }
        p
    }

    /// Borrows the events emitted so far.
    pub fn events(&self) -> (r: &Vec<JsonEvent>)
        ensures
            r@ == self.sevents(),
    {
        &self.events
    }

    /// Takes the events emitted so far, leaving the parser's event list
    /// empty; parsing state is unaffected.
    pub fn take_events(&mut self) -> (r: Vec<JsonEvent>)
        ensures
            r@ == old(self).sevents(),
            final(self).sevents() == Seq::<JsonEvent>::empty(),
            final(self).wf() == old(self).wf(),
            final(self).ready() == old(self).ready(),
            final(self).idle() == old(self).idle(),
            final(self).fed() == old(self).fed(),
    {
        let mut taken: Vec<JsonEvent> = Vec::new();
        core::mem::swap(&mut taken, &mut self.events);
        taken
    }

    /// Advances both cursors past one already-inspected byte.
    fn consume_one_char(&mut self)
        requires
            old(self).wf(),
            old(self).offset < old(self).buffer@.len(),
        ensures
            final(self).wf(),
            Self::steady(*old(self), *final(self)),
            final(self).offset == old(self).offset + 1,
            final(self).start_pos == old(self).start_pos + 1,
            final(self).states@ == old(self).states@,
            final(self).events@ == old(self).events@,
    {
        let n = self.buffer.len();
        proof {
            assert(self.offset < n);
        }
        self.offset = self.offset + 1;
        self.start_pos = self.start_pos + 1;
    }

    /// The byte under the read cursor, if any.
    fn peek_byte(&self) -> (r: Option<u8>)
        requires
            self.wf(),
        ensures
            match r {
                Some(b) => self.offset < self.buffer@.len() && b == self.buffer@[
                    self.offset as int
                ],
                None => self.offset == self.buffer@.len(),
            },
    {
        if self.offset < self.buffer.len() {
            Some(self.buffer[self.offset])
        } else {
            None
        }
    }

    /// Skips whitespace bytes, discarding them from the current token.
    fn skip_whitespace(&mut self)
        requires
            old(self).wf(),
        ensures
            final(self).wf(),
            Self::steady(*old(self), *final(self)),
            final(self).states@ == old(self).states@,
            final(self).events@ == old(self).events@,
            final(self).offset - final(self).start_pos == old(self).offset - old(self).start_pos,
            forall|j: int|
                old(self).offset <= j < final(self).offset ==> is_ws_byte(
                    #[trigger] old(self).buffer@[j],
                ),
            final(self).offset == final(self).buffer@.len() || !is_ws_byte(
                final(self).buffer@[final(self).offset as int],
            ),
        decreases old(self).buffer@.len() - old(self).offset,
    {
        let mut i = self.offset;
        while i < self.buffer.len() && ws_byte(self.buffer[i])
            invariant
                self.wf(),
                self.offset <= i <= self.buffer@.len(),
                forall|j: int| self.offset <= j < i ==> is_ws_byte(self.buffer@[j]),
            decreases self.buffer@.len() - i,
        {
            i = i + 1;
        }
        let skipped = i - self.offset;
        self.offset = i;
        self.start_pos = self.start_pos + skipped;
    }

    /// Matches the bytes of `literal` starting at the current token prefix,
    /// consuming as far as the buffer allows. `Ok(true)` when the whole
    /// literal has been matched, `Ok(false)` at end of buffer, an error on
    /// the first mismatching byte.
    fn expect_literal(&mut self, literal: &[u8]) -> (r: Result<bool, JsonStreamParseError>)
        requires
            old(self).wf(),
        ensures
            final(self).wf(),
            Self::steady(*old(self), *final(self)),
            final(self).states@ == old(self).states@,
            final(self).events@ == old(self).events@,
            final(self).start_pos == old(self).start_pos,
            r matches Ok(true) ==> final(self).offset - final(self).start_pos >= literal@.len(),
            r matches Ok(false) ==> final(self).offset == final(self).buffer@.len(),
            old(self).start_pos == old(self).offset && bytes_at(
                old(self).buffer@,
                old(self).offset as int,
                literal@,
            ) ==> r == Ok::<bool, JsonStreamParseError>(true) && final(self).offset == old(
                self,
            ).offset + literal@.len(),
    {
        let mut i = self.offset - self.start_pos;
        while i < literal.len()
            invariant
                self.wf(),
                Self::steady(*old(self), *self),
                self.states@ == old(self).states@,
                self.events@ == old(self).events@,
                self.start_pos == old(self).start_pos,
                i == self.offset - self.start_pos,
                i <= literal@.len() || i == old(self).offset - old(self).start_pos,
            decreases literal@.len() - i,
        {
            if self.offset < self.buffer.len() {
                let b = self.buffer[self.offset];
                if b != literal[i] {
                    return Err(
                        JsonStreamParseError::InvalidLiteral(String::from_str("Unexpected literal")),
                    );
                }
                self.offset = self.offset + 1;
                i = i + 1;
            } else {
                return Ok(false);
            }
        }
        Ok(true)
    }

    /// Finishes the `null` literal and emits `Null`.
    fn parse_null(&mut self) -> (r: Result<bool, JsonStreamParseError>)
        requires
            old(self).wf(),
        ensures
            final(self).wf(),
            Self::steady(*old(self), *final(self)),
            final(self).states@ == old(self).states@,
            r matches Ok(true) ==> final(self).events@ == old(self).events@.push(JsonEvent::Null)
                && final(self).start_pos == final(self).offset && final(self).offset >= old(self).start_pos + 4,
            !(r matches Ok(true)) ==> final(self).events@ == old(self).events@,
            r matches Ok(false) ==> final(self).offset == final(self).buffer@.len(),
            old(self).start_pos == old(self).offset && bytes_at(
                old(self).buffer@,
                old(self).offset as int,
                seq![110u8, 117u8, 108u8, 108u8],
            ) ==> r == Ok::<bool, JsonStreamParseError>(true),
    {
        let lit = [110u8, 117u8, 108u8, 108u8];
        proof {
            assert(lit@ =~= seq![110u8, 117u8, 108u8, 108u8]);
        }
        let complete = self.expect_literal(lit.as_slice())?;
        if complete {
            self.events.push(JsonEvent::Null);
            self.start_pos = self.offset;
            Ok(true)
        } else {
            Ok(false)
        }
    }

    /// Finishes the `true` literal and emits `Bool(true)`.
    fn parse_true(&mut self) -> (r: Result<bool, JsonStreamParseError>)
        requires
            old(self).wf(),
        ensures
            final(self).wf(),
            Self::steady(*old(self), *final(self)),
            final(self).states@ == old(self).states@,
            r matches Ok(true) ==> final(self).events@ == old(self).events@.push(
                JsonEvent::Bool(true),
            ) && final(self).start_pos == final(self).offset && final(self).offset >= old(self).start_pos + 4,
            !(r matches Ok(true)) ==> final(self).events@ == old(self).events@,
            r matches Ok(false) ==> final(self).offset == final(self).buffer@.len(),
            old(self).start_pos == old(self).offset && bytes_at(
                old(self).buffer@,
                old(self).offset as int,
                seq![116u8, 114u8, 117u8, 101u8],
            ) ==> r == Ok::<bool, JsonStreamParseError>(true),
    {
        let lit = [116u8, 114u8, 117u8, 101u8];
        proof {
            assert(lit@ =~= seq![116u8, 114u8, 117u8, 101u8]);
        }
        let complete = match self.expect_literal(lit.as_slice()) {
            Ok(c) => c,
            Err(_) => {
                return Err(JsonStreamParseError::InvalidBoolean);
            },
        };
        if complete {
            self.events.push(JsonEvent::Bool(true));
            self.start_pos = self.offset;
            Ok(true)
        } else {
            Ok(false)
        }
    }

    /// Finishes the `false` literal and emits `Bool(false)`.
    fn parse_false(&mut self) -> (r: Result<bool, JsonStreamParseError>)
        requires
            old(self).wf(),
        ensures
            final(self).wf(),
            Self::steady(*old(self), *final(self)),
            final(self).states@ == old(self).states@,
            r matches Ok(true) ==> final(self).events@ == old(self).events@.push(
                JsonEvent::Bool(false),
            ) && final(self).start_pos == final(self).offset && final(self).offset >= old(self).start_pos + 5,
            !(r matches Ok(true)) ==> final(self).events@ == old(self).events@,
            r matches Ok(false) ==> final(self).offset == final(self).buffer@.len(),
            old(self).start_pos == old(self).offset && bytes_at(
                old(self).buffer@,
                old(self).offset as int,
                seq![102u8, 97u8, 108u8, 115u8, 101u8],
            ) ==> r == Ok::<bool, JsonStreamParseError>(true),
    {
        let lit = [102u8, 97u8, 108u8, 115u8, 101u8];
        proof {
            assert(lit@ =~= seq![102u8, 97u8, 108u8, 115u8, 101u8]);
        }
        let complete = match self.expect_literal(lit.as_slice()) {
            Ok(c) => c,
            Err(_) => {
                return Err(JsonStreamParseError::InvalidBoolean);
            },
        };
        if complete {
            self.events.push(JsonEvent::Bool(false));
            self.start_pos = self.offset;
            Ok(true)
        } else {
            Ok(false)
        }
    }

    /// Copies `buffer[lo..hi]` out.
    fn copy_range(&self, lo: usize, hi: usize) -> (v: Vec<u8>)
        requires
            lo <= hi <= self.buffer@.len(),
        ensures
            v@ == self.buffer@.subrange(lo as int, hi as int),
    {
        let mut v: Vec<u8> = Vec::new();
        let mut i = lo;
        while i < hi
            invariant
                lo <= i <= hi <= self.buffer@.len(),
                v@ == self.buffer@.subrange(lo as int, i as int),
            decreases hi - i,
        {
            v.push(self.buffer[i]);
            proof {
                assert(v@ =~= self.buffer@.subrange(lo as int, i + 1));
            }
            i = i + 1;
        }
        v
    }

    /// Accumulates a number body and, once a terminator is seen, validates
    /// it and emits `Number`. Nested numbers end at the first byte outside
    /// the numeric class; a top-level number may only end at the end of the
    /// input, so a stray byte there is an error.
    fn parse_number(&mut self, is_negative: bool) -> (r: Result<bool, JsonStreamParseError>)
        requires
            old(self).wf(),
        ensures
            final(self).wf(),
            Self::steady(*old(self), *final(self)),
            final(self).states@ == old(self).states@,
            !(r matches Ok(true)) ==> final(self).events@ == old(self).events@ && final(self).start_pos == old(self).start_pos,
            r matches Ok(false) ==> final(self).offset == final(self).buffer@.len(),
            old(self).states@.len() == 1 && num_run_end(old(self).buffer@, old(self).offset as int)
                < old(self).buffer@.len() ==> r == Err::<bool, JsonStreamParseError>(
                JsonStreamParseError::InvalidNumber,
            ),
            old(self).states@.len() == 1 && old(self).start_pos == old(self).offset
                && num_run_end(old(self).buffer@, old(self).offset as int) == old(
                self,
            ).buffer@.len() && valid_number_body(
                old(self).buffer@.subrange(old(self).offset as int, old(self).buffer@.len() as int),
            ) ==> r == Ok::<bool, JsonStreamParseError>(true) && final(self).offset == old(
                self,
            ).buffer@.len(),
            old(self).states@.len() == 1 && old(self).start_pos == old(self).offset
                && num_run_end(old(self).buffer@, old(self).offset as int) == old(
                self,
            ).buffer@.len() && !valid_number_body(
                old(self).buffer@.subrange(old(self).offset as int, old(self).buffer@.len() as int),
            ) ==> r == Err::<bool, JsonStreamParseError>(JsonStreamParseError::InvalidNumber),
            r matches Ok(true) ==> {
                &&& final(self).start_pos == final(self).offset
                &&& final(self).offset > old(self).start_pos
                &&& final(self).events@.len() == old(self).events@.len() + 1
                &&& final(self).events@.last() matches JsonEvent::Number(_)
                &&& encode_utf8(payload_of(final(self).events@.last())) == (if is_negative {
                    seq![45u8]
                } else {
                    Seq::<u8>::empty()
                }) + old(self).buffer@.subrange(
                    old(self).start_pos as int,
                    final(self).offset as int,
                )
            },
    {
        let mut scanning = true;
        while scanning
            invariant
                self.wf(),
                Self::steady(*old(self), *self),
                self.states@ == old(self).states@,
                self.events@ == old(self).events@,
                self.start_pos == old(self).start_pos,
                forall|j: int|
                    old(self).offset <= j < self.offset ==> is_num_class_byte(
                        #[trigger] self.buffer@[j],
                    ),
                !scanning ==> self.offset == self.buffer@.len() || !is_num_class_byte(
                    self.buffer@[self.offset as int],
                ),
            decreases self.buffer@.len() - self.offset + (if scanning {
                1int
            } else {
                0int
            }),
        {
            if self.offset < self.buffer.len() {
                let c = self.buffer[self.offset];
                if (48 <= c && c <= 57) || c == 46 || c == 45 || c == 101 || c == 69 {
                    self.offset = self.offset + 1;
                } else {
                    scanning = false;
                }
            } else {
                scanning = false;
            }
        }
        proof {
            // the scan stopped at the end of the numeric run
            lemma_num_run_end(self.buffer@, old(self).offset as int);
            let nre = num_run_end(self.buffer@, old(self).offset as int);
            assert(self.offset == nre) by {
                if self.offset < nre {
                    assert(is_num_class_byte(self.buffer@[self.offset as int]));
                } else if self.offset > nre {
                    assert(is_num_class_byte(self.buffer@[nre]));
                }
            }
        }
        if self.offset < self.buffer.len() {
            if self.states.len() == 1 {
                // a top-level number may only be terminated by end of input
                return Err(JsonStreamParseError::InvalidNumber);
            }
        } else {
            if self.states.len() != 1 {
                return Ok(false);
            }
        }
        let body = self.copy_range(self.start_pos, self.offset);
        if !check_number_body(&body) {
            return Err(JsonStreamParseError::InvalidNumber);
        }
        let mut text: Vec<u8> = Vec::new();
        if is_negative {
            text.push(45);
        }
        text.extend_from_slice(body.as_slice());
        proof {
            assert(text@ =~= (if is_negative {
                seq![45u8]
            } else {
                Seq::<u8>::empty()
            }) + body@);
        }
        let payload = match bytes_to_string(text) {
            Some(s) => s,
            None => {
                proof {
                    if old(self).start_pos == old(self).offset {
                        // every scanned byte is in the numeric class, hence
                        // ASCII, so the conversion cannot fail
                        lemma_ascii_valid_utf8(
                            (if is_negative {
                                seq![45u8]
                            } else {
                                Seq::<u8>::empty()
                            }) + body@,
                        );
                    }
                }
                return Err(JsonStreamParseError::InvalidNumber);
            },
        };
        self.events.push(JsonEvent::Number(payload));
        self.start_pos = self.offset;
        Ok(true)
    }

    /// Scans to the closing quote and emits `Key` or `String` whose text is
    /// exactly the bytes between the quotes (escape sequences are passed
    /// through uninterpreted). `Ok(false)` when the closing quote has not
    /// arrived yet.
    fn parse_string(&mut self, is_key: bool) -> (r: Result<bool, JsonStreamParseError>)
        requires
            old(self).wf(),
        ensures
            final(self).wf(),
            Self::steady(*old(self), *final(self)),
            final(self).states@ == old(self).states@,
            !(r matches Ok(true)) ==> final(self).events@ == old(self).events@ && final(self).start_pos == old(self).start_pos,
            r matches Ok(false) ==> final(self).offset == final(self).buffer@.len(),
            old(self).start_pos == old(self).offset && quote_end(
                old(self).buffer@,
                old(self).offset as int,
            ) < old(self).buffer@.len() && valid_utf8(
                old(self).buffer@.subrange(
                    old(self).offset as int,
                    quote_end(old(self).buffer@, old(self).offset as int),
                ),
            ) ==> r == Ok::<bool, JsonStreamParseError>(true) && final(self).offset == quote_end(
                old(self).buffer@,
                old(self).offset as int,
            ) + 1,
            r matches Ok(true) ==> {
                &&& final(self).start_pos == final(self).offset
                &&& old(self).offset < final(self).offset <= old(self).buffer@.len()
                &&& final(self).events@.len() == old(self).events@.len() + 1
                &&& (if is_key {
                    final(self).events@.last() matches JsonEvent::Key(_)
                } else {
                    final(self).events@.last() matches JsonEvent::String(_)
                })
                &&& encode_utf8(payload_of(final(self).events@.last())) == old(self).buffer@.subrange(old(self).start_pos as int, final(self).offset - 1)
                &&& encode_utf8(payload_of(final(self).events@.last())) == old(self).fed().subrange(
                    old(self).dropped@ + old(self).start_pos,
                    old(self).dropped@ + final(self).offset - 1,
                )
            },
    {
        let mut scanning = true;
        let mut closed = false;
        while scanning
            invariant
                self.wf(),
                Self::steady(*old(self), *self),
                self.states@ == old(self).states@,
                self.events@ == old(self).events@,
                self.start_pos == old(self).start_pos,
                closed ==> !scanning && old(self).offset < self.offset && self.buffer@[
                    self.offset - 1
                ] == 34,
                !closed && !scanning ==> self.offset == self.buffer@.len(),
                scanning || !closed ==> forall|j: int|
                    old(self).offset <= j < self.offset ==> (#[trigger] self.buffer@[j]) != 34,
                closed ==> forall|j: int|
                    old(self).offset <= j < self.offset - 1 ==> (#[trigger] self.buffer@[j])
                        != 34,
            decreases self.buffer@.len() - self.offset + (if scanning {
                1int
            } else {
                0int
            }),
        {
            if self.offset < self.buffer.len() {
                let c = self.buffer[self.offset];
                self.offset = self.offset + 1;
                if c == 34 {
                    scanning = false;
                    closed = true;
                }
            } else {
                scanning = false;
            }
        }
        if !closed {
            proof {
                lemma_quote_end(old(self).buffer@, old(self).offset as int);
            }
            return Ok(false);
        }
        proof {
            // the scan stopped at the first quote
            lemma_quote_end(old(self).buffer@, old(self).offset as int);
            let qe = quote_end(old(self).buffer@, old(self).offset as int);
            assert(self.offset - 1 == qe) by {
                if self.offset - 1 < qe {
                    assert(self.buffer@[self.offset - 1] != 34);
                } else if self.offset - 1 > qe {
                    assert(self.buffer@[qe] != 34);
                    assert(old(self).buffer@[qe] == 34);
                }
            }
        }
        let payload_bytes = self.copy_range(self.start_pos, self.offset - 1);
        match bytes_to_string(payload_bytes) {
            None => Err(JsonStreamParseError::UnexpectedChar('\u{fffd}')),
            Some(s) => {
                let ev = if is_key {
                    JsonEvent::Key(s)
                } else {
                    JsonEvent::String(s)
                };
                self.events.push(ev);
                self.start_pos = self.offset;
                proof {
                    let a = old(self).dropped@ + old(self).start_pos;
                    let b = old(self).dropped@ + self.offset - 1;
                    assert(old(self).buffer@.subrange(
                        old(self).start_pos as int,
                        self.offset - 1,
                    ) =~= old(self).input@.subrange(a, b));
                }
                Ok(true)
            },
        }
    }

    /// Expects the single byte `expected` next, consuming and digesting it.
    /// `Ok(false)` at end of buffer; an error on any other byte.
    fn consume_char(&mut self, expected: u8) -> (r: Result<bool, JsonStreamParseError>)
        requires
            old(self).wf(),
            old(self).start_pos == old(self).offset,
        ensures
            final(self).wf(),
            Self::steady(*old(self), *final(self)),
            final(self).states@ == old(self).states@,
            final(self).events@ == old(self).events@,
            r matches Ok(_) ==> final(self).start_pos == final(self).offset,
            r matches Ok(false) ==> final(self).offset == final(self).buffer@.len(),
    {
        if self.offset < self.buffer.len() {
            let c = self.buffer[self.offset];
            self.offset = self.offset + 1;
            if c == expected {
                self.start_pos = self.start_pos + 1;
                Ok(true)
            } else {
                Err(JsonStreamParseError::InvalidObject(String::from_str("Expected ':'")))
            }
        } else {
            Ok(false)
        }
    }

    /// Flips the `expects_key` flag of the `Object` frame on top of the
    /// stack; leaves any other stack unchanged.
    fn set_parsing_object_expects_key(&mut self, value: bool)
        ensures
            final(self).buffer@ == old(self).buffer@,
            final(self).input@ == old(self).input@,
            final(self).dropped@ == old(self).dropped@,
            final(self).events@ == old(self).events@,
            final(self).offset == old(self).offset,
            final(self).start_pos == old(self).start_pos,
            final(self).states@ == (if old(self).states@.len() > 0 && (old(self).states@.last() matches ParserState::Object(_)) {
                old(self).states@.update(old(self).states@.len() - 1, ParserState::Object(value))
            } else {
                old(self).states@
            }),
    {
        let n = self.states.len();
        if n == 0 {
            return ;
        }
        let top = self.states[n - 1];
        match top {
            ParserState::Object(_) => {
                self.states.set(n - 1, ParserState::Object(value));
            },
            _ => {
                proof {
                    assert(final(self).states@ =~= old(self).states@);
                }
            },
        }
    }

    /// Classifies the next byte and dispatches to the matching sub-parser,
    /// pushing the new frame. `is_key` selects whether a string becomes a
    /// `Key` or a `String`.
    fn parse_element(&mut self, is_key: bool) -> (r: Result<bool, JsonStreamParseError>)
        requires
            old(self).wf(),
            old(self).start_pos == old(self).offset,
        ensures
            final(self).wf(),
            Self::steady(*old(self), *final(self)),
            r matches Ok(true) ==> final(self).states@.len() == old(self).states@.len() + 1 && old(self).states@.is_prefix_of(final(self).states@) && final(self).offset > old(self).offset
                && final(self).start_pos == final(self).offset && final(self).events@.len() > old(self).events@.len(),
            r matches Ok(false) ==> final(self).states@.len() >= old(self).states@.len() && old(self).states@.is_prefix_of(final(self).states@) && final(self).ready() && final(self).offset == final(self).buffer@.len(),
            old(self).offset < old(self).buffer@.len() && !is_dispatch_byte(
                old(self).buffer@[old(self).offset as int],
            ) ==> r == Err::<bool, JsonStreamParseError>(
                JsonStreamParseError::UnexpectedChar(
                    old(self).buffer@[old(self).offset as int] as char,
                ),
            ),
            bytes_at(old(self).buffer@, old(self).offset as int, seq![110u8, 117u8, 108u8, 108u8])
                ==> r == Ok::<bool, JsonStreamParseError>(true) && final(self).events@ == old(
                self,
            ).events@.push(JsonEvent::Null),
            bytes_at(old(self).buffer@, old(self).offset as int, seq![116u8, 114u8, 117u8, 101u8])
                ==> r == Ok::<bool, JsonStreamParseError>(true) && final(self).events@ == old(
                self,
            ).events@.push(JsonEvent::Bool(true)),
            bytes_at(
                old(self).buffer@,
                old(self).offset as int,
                seq![102u8, 97u8, 108u8, 115u8, 101u8],
            ) ==> r == Ok::<bool, JsonStreamParseError>(true) && final(self).events@ == old(
                self,
            ).events@.push(JsonEvent::Bool(false)),
            old(self).offset < old(self).buffer@.len() && old(self).buffer@[old(self).offset as int]
                == 34 && quote_end(old(self).buffer@, old(self).offset + 1) < old(
                self,
            ).buffer@.len() && valid_utf8(
                old(self).buffer@.subrange(
                    old(self).offset + 1,
                    quote_end(old(self).buffer@, old(self).offset + 1),
                ),
            ) ==> r == Ok::<bool, JsonStreamParseError>(true) && final(self).events@.len() == old(
                self,
            ).events@.len() + 1 && (if is_key {
                final(self).events@.last() matches JsonEvent::Key(_)
            } else {
                final(self).events@.last() matches JsonEvent::String(_)
            }) && encode_utf8(payload_of(final(self).events@.last())) == old(
                self,
            ).buffer@.subrange(
                old(self).offset + 1,
                quote_end(old(self).buffer@, old(self).offset + 1),
            ),
            num_start(old(self).buffer@, old(self).offset as int) is Some && old(
                self,
            ).states@.len() == 0 && num_run_end(
                old(self).buffer@,
                num_start(old(self).buffer@, old(self).offset as int)->0,
            ) < old(self).buffer@.len() ==> r == Err::<bool, JsonStreamParseError>(
                JsonStreamParseError::InvalidNumber,
            ),
            num_start(old(self).buffer@, old(self).offset as int) is Some && old(
                self,
            ).states@.len() == 0 && num_run_end(
                old(self).buffer@,
                num_start(old(self).buffer@, old(self).offset as int)->0,
            ) == old(self).buffer@.len() && valid_number_body(
                old(self).buffer@.subrange(
                    num_start(old(self).buffer@, old(self).offset as int)->0,
                    old(self).buffer@.len() as int,
                ),
            ) ==> r == Ok::<bool, JsonStreamParseError>(true) && final(self).events@.len() == old(
                self,
            ).events@.len() + 1 && (final(self).events@.last() matches JsonEvent::Number(_))
                && encode_utf8(payload_of(final(self).events@.last())) == old(
                self,
            ).buffer@.subrange(old(self).offset as int, old(self).buffer@.len() as int),
            num_start(old(self).buffer@, old(self).offset as int) is Some && old(
                self,
            ).states@.len() == 0 && num_run_end(
                old(self).buffer@,
                num_start(old(self).buffer@, old(self).offset as int)->0,
            ) == old(self).buffer@.len() && !valid_number_body(
                old(self).buffer@.subrange(
                    num_start(old(self).buffer@, old(self).offset as int)->0,
                    old(self).buffer@.len() as int,
                ),
            ) ==> r == Err::<bool, JsonStreamParseError>(JsonStreamParseError::InvalidNumber),
        decreases old(self).buffer@.len() - old(self).offset, 0int,
    {
        match self.peek_byte() {
            None => Ok(false),
            Some(c) => {
                if c == 110 {
                    self.states.push(ParserState::Null);
                    self.parse_null()
                } else if c == 116 {
                    self.states.push(ParserState::True);
                    self.parse_true()
                } else if c == 102 {
                    self.states.push(ParserState::False);
                    self.parse_false()
                } else if c == 34 {
                    if is_key {
                        self.states.push(ParserState::ObjectKey);
                    } else {
                        self.states.push(ParserState::StringVal);
                    }
                    self.consume_one_char();
                    self.parse_string(is_key)
                } else if c == 91 {
                    self.states.push(ParserState::Array);
                    self.consume_one_char();
                    self.events.push(JsonEvent::StartArray);
                    self.parse_array()
                } else if c == 123 {
                    self.states.push(ParserState::Object(true));
                    self.consume_one_char();
                    self.events.push(JsonEvent::StartObject);
                    self.parse_object(true)
                } else if (48 <= c && c <= 57) || c == 45 {
                    let is_negative = c == 45;
                    if is_negative {
                        self.consume_one_char();
                    }
                    self.states.push(ParserState::Num(is_negative));
                    let r = self.parse_number(is_negative);
                    proof {
                        let st = num_start(old(self).buffer@, old(self).offset as int)->0;
                        if is_negative {
                            assert((seq![45u8] + old(self).buffer@.subrange(
                                st,
                                old(self).buffer@.len() as int,
                            )) =~= old(self).buffer@.subrange(
                                old(self).offset as int,
                                old(self).buffer@.len() as int,
                            ));
                        } else {
                            assert((Seq::<u8>::empty() + old(self).buffer@.subrange(
                                st,
                                old(self).buffer@.len() as int,
                            )) =~= old(self).buffer@.subrange(
                                old(self).offset as int,
                                old(self).buffer@.len() as int,
                            ));
                        }
                    }
                    r
                } else {
                    Err(JsonStreamParseError::UnexpectedChar(c as char))
                }
            },
        }
    }

    /// Runs the body of an array after its `[`: elements separated by
    /// commas, closed by `]` (which emits `EndArray`).
    fn parse_array(&mut self) -> (r: Result<bool, JsonStreamParseError>)
        requires
            old(self).wf(),
            old(self).states@.len() >= 1,
            old(self).states@.last() == ParserState::Array,
            old(self).start_pos == old(self).offset,
        ensures
            final(self).wf(),
            Self::steady(*old(self), *final(self)),
            r matches Ok(true) ==> final(self).states@ == old(self).states@ && final(self).start_pos == final(self).offset && final(self).events@.len() > old(self).events@.len()
                && final(self).events@.last() == JsonEvent::EndArray,
            r matches Ok(false) ==> final(self).states@.len() >= old(self).states@.len() && old(self).states@.is_prefix_of(final(self).states@) && final(self).ready() && final(self).offset == final(self).buffer@.len(),
        decreases old(self).buffer@.len() - old(self).offset, 1int,
    {
        loop
            invariant
                self.wf(),
                Self::steady(*old(self), *self),
                self.states@ == old(self).states@,
                self.states@.len() >= 1,
                self.states@.last() == ParserState::Array,
                self.start_pos == self.offset,
            decreases self.buffer@.len() - self.offset,
        {
            self.skip_whitespace();
            match self.peek_byte() {
                None => {
                    return Ok(false);
                },
                Some(c0) => {
                    if c0 == 93 {
                        self.consume_one_char();
                        self.events.push(JsonEvent::EndArray);
                        return Ok(true);
                    }
                    if c0 == 44 {
                        self.consume_one_char();
                        self.skip_whitespace();
                    }
                    let complete = self.parse_element(false)?;
                    if complete {
                        let _ = self.states.pop();
                        self.skip_whitespace();
                        match self.peek_byte() {
                            None => {
                                return Ok(false);
                            },
                            Some(c2) => {
                                if c2 != 93 && c2 != 44 {
                                    return Err(
                                        JsonStreamParseError::InvalidArray(
                                            String::from_str("Expected ',' or ']'"),
                                        ),
                                    );
                                }
                            },
                        }
                    } else {
                        return Ok(false);
                    }
                },
            }
        }
    }

    /// Runs the body of an object after its `{`: keys and values in
    /// alternation with their separators, closed by `}` (which emits
    /// `EndObject`). The `ObjectValue` marker frame wrapped around each value
    /// is what routes a nested value's completion back to this object.
    fn parse_object(&mut self, expects_key_arg: bool) -> (r: Result<bool, JsonStreamParseError>)
        requires
            old(self).wf(),
            old(self).states@.len() >= 1,
            old(self).states@.last() matches ParserState::Object(_),
            old(self).start_pos == old(self).offset,
        ensures
            final(self).wf(),
            Self::steady(*old(self), *final(self)),
            r matches Ok(true) ==> final(self).states@.len() == old(self).states@.len() && final(self).states@.drop_last() == old(self).states@.drop_last() && (final(self).states@.last() matches ParserState::Object(_)) && final(self).start_pos == final(self).offset && final(self).events@.len() > old(self).events@.len() && final(self).events@.last()
                == JsonEvent::EndObject,
            r matches Ok(false) ==> final(self).states@.len() >= old(self).states@.len() && final(self).states@.subrange(0, old(self).states@.len() - 1) == old(self).states@.drop_last() && (
            final(self).states@[old(self).states@.len() - 1] matches ParserState::Object(_))
                && final(self).ready() && final(self).offset == final(self).buffer@.len(),
        decreases old(self).buffer@.len() - old(self).offset, 1int,
    {
        let mut expects_key = expects_key_arg;
        loop
            invariant
                self.wf(),
                Self::steady(*old(self), *self),
                old(self).states@.len() >= 1,
                self.states@.len() == old(self).states@.len(),
                self.states@.drop_last() == old(self).states@.drop_last(),
                self.states@.last() matches ParserState::Object(_),
                self.start_pos == self.offset,
            decreases self.buffer@.len() - self.offset,
        {
            self.skip_whitespace();
            match self.peek_byte() {
                None => {
                    return Ok(false);
                },
                Some(c0) => {
                    if c0 == 125 {
                        self.consume_one_char();
                        self.events.push(JsonEvent::EndObject);
                        return Ok(true);
                    }
                    if c0 == 58 || c0 == 44 {
                        self.consume_one_char();
                        self.skip_whitespace();
                    }
                    let ghost s_base = self.states@;
                    if !expects_key {
                        self.states.push(ParserState::ObjectValue);
                    }
                    let ghost pre_elem = self.states@;
                    proof {
                        assert(forall|j: int| 0 <= j < s_base.len() ==> pre_elem[j] == s_base[j]);
                    }
                    let complete = match self.parse_element(expects_key) {
                        Ok(c) => c,
                        Err(e) => {
                            return Err(e);
                        },
                    };
                    if complete {
                        proof {
                            assert(self.states@.drop_last() =~= pre_elem);
                        }
                        let _ = self.states.pop();
                        if !expects_key {
                            proof {
                                assert(pre_elem.drop_last() =~= s_base);
                            }
                            let _ = self.states.pop();
                        }
                        proof {
                            assert(self.states@ =~= s_base);
                        }
                        expects_key = !expects_key;
                        self.set_parsing_object_expects_key(expects_key);
                        let ghost s_flag = self.states@;
                        proof {
                            assert(s_flag == s_base.update(
                                s_base.len() - 1,
                                ParserState::Object(expects_key),
                            ));
                            assert(s_flag.drop_last() =~= old(self).states@.drop_last());
                        }
                        if !expects_key {
                            self.skip_whitespace();
                            self.states.push(ParserState::ObjectColon);
                            let colon = match self.consume_char(58) {
                                Ok(c) => c,
                                Err(e) => {
                                    return Err(e);
                                },
                            };
                            if colon {
                                proof {
                                    assert(self.states@.drop_last() =~= s_flag);
                                }
                                let _ = self.states.pop();
                                self.skip_whitespace();
                                proof {
                                    assert(self.states@.drop_last() =~= old(self).states@.drop_last());
                                }
                            } else {
                                proof {
                                    let fs = self.states@;
                                    assert(fs == s_flag.push(ParserState::ObjectColon));
                                    assert(fs.subrange(0, old(self).states@.len() - 1)
                                        =~= old(self).states@.drop_last());
                                    assert(fs[old(self).states@.len() - 1] == s_flag[old(self).states@.len() - 1]);
                                }
                                return Ok(false);
                            }
                        } else {
                            proof {
                                assert(self.states@.drop_last() =~= old(self).states@.drop_last());
                            }
                        }
                    } else {
                        proof {
                            let fs = self.states@;
                            assert(pre_elem =~= fs.subrange(0, pre_elem.len() as int));
                            assert(forall|j: int|
                                0 <= j < pre_elem.len() ==> fs[j] == pre_elem[j]);
                            assert(fs.subrange(0, old(self).states@.len() - 1) =~= old(self).states@.drop_last());
                            assert(fs[old(self).states@.len() - 1] == s_base[old(self).states@.len() - 1]);
                        }
                        return Ok(false);
                    }
                },
            }
        }
    }

    /// Resumes whatever frame is suspended on top of the stack (or
    /// dispatches a fresh top-level element), and on completion pops the
    /// finished frame, handing control back to an enclosing object when an
    /// `ObjectValue` marker surfaces.
    fn parse_value(&mut self) -> (r: Result<bool, JsonStreamParseError>)
        requires
            old(self).wf(),
            old(self).ready(),
        ensures
            final(self).wf(),
            Self::steady(*old(self), *final(self)),
            r matches Ok(_) ==> final(self).ready(),
            r matches Ok(true) ==> (old(self).states@.len() > 0 ==> final(self).states@.len()
                < old(self).states@.len()) && (old(self).states@.len() == 0 ==> final(self).states@.len() == 0),
            r matches Ok(true) && old(self).states@.len() == 0 ==> final(self).events@.len() > old(
                self,
            ).events@.len(),
            r matches Ok(false) ==> final(self).offset == final(self).buffer@.len(),
            old(self).states@.len() == 0 && old(self).offset < old(self).buffer@.len()
                && !is_dispatch_byte(old(self).buffer@[old(self).offset as int]) ==> r == Err::<bool, JsonStreamParseError>(
                JsonStreamParseError::UnexpectedChar(
                    old(self).buffer@[old(self).offset as int] as char,
                ),
            ),
            old(self).states@.len() == 0 && bytes_at(
                old(self).buffer@,
                old(self).offset as int,
                seq![110u8, 117u8, 108u8, 108u8],
            ) ==> r == Ok::<bool, JsonStreamParseError>(true) && final(self).events@ == old(
                self,
            ).events@.push(JsonEvent::Null),
            old(self).states@.len() == 0 && bytes_at(
                old(self).buffer@,
                old(self).offset as int,
                seq![116u8, 114u8, 117u8, 101u8],
            ) ==> r == Ok::<bool, JsonStreamParseError>(true) && final(self).events@ == old(
                self,
            ).events@.push(JsonEvent::Bool(true)),
            old(self).states@.len() == 0 && bytes_at(
                old(self).buffer@,
                old(self).offset as int,
                seq![102u8, 97u8, 108u8, 115u8, 101u8],
            ) ==> r == Ok::<bool, JsonStreamParseError>(true) && final(self).events@ == old(
                self,
            ).events@.push(JsonEvent::Bool(false)),
            old(self).states@.len() == 0 && old(self).offset < old(self).buffer@.len() && old(
                self,
            ).buffer@[old(self).offset as int] == 34 && quote_end(
                old(self).buffer@,
                old(self).offset + 1,
            ) < old(self).buffer@.len() && valid_utf8(
                old(self).buffer@.subrange(
                    old(self).offset + 1,
                    quote_end(old(self).buffer@, old(self).offset + 1),
                ),
            ) ==> r == Ok::<bool, JsonStreamParseError>(true) && final(self).events@.len() == old(
                self,
            ).events@.len() + 1 && (final(self).events@.last() matches JsonEvent::String(_))
                && encode_utf8(payload_of(final(self).events@.last())) == old(
                self,
            ).buffer@.subrange(
                old(self).offset + 1,
                quote_end(old(self).buffer@, old(self).offset + 1),
            ),
            old(self).states@.len() == 0 && num_start(old(self).buffer@, old(self).offset as int)
                is Some && num_run_end(
                old(self).buffer@,
                num_start(old(self).buffer@, old(self).offset as int)->0,
            ) < old(self).buffer@.len() ==> r == Err::<bool, JsonStreamParseError>(
                JsonStreamParseError::InvalidNumber,
            ),
            old(self).states@.len() == 0 && num_start(old(self).buffer@, old(self).offset as int)
                is Some && num_run_end(
                old(self).buffer@,
                num_start(old(self).buffer@, old(self).offset as int)->0,
            ) == old(self).buffer@.len() && valid_number_body(
                old(self).buffer@.subrange(
                    num_start(old(self).buffer@, old(self).offset as int)->0,
                    old(self).buffer@.len() as int,
                ),
            ) ==> r == Ok::<bool, JsonStreamParseError>(true) && final(self).events@.len() == old(
                self,
            ).events@.len() + 1 && (final(self).events@.last() matches JsonEvent::Number(_))
                && encode_utf8(payload_of(final(self).events@.last())) == old(
                self,
            ).buffer@.subrange(old(self).offset as int, old(self).buffer@.len() as int),
            old(self).states@.len() == 0 && num_start(old(self).buffer@, old(self).offset as int)
                is Some && num_run_end(
                old(self).buffer@,
                num_start(old(self).buffer@, old(self).offset as int)->0,
            ) == old(self).buffer@.len() && !valid_number_body(
                old(self).buffer@.subrange(
                    num_start(old(self).buffer@, old(self).offset as int)->0,
                    old(self).buffer@.len() as int,
                ),
            ) ==> r == Err::<bool, JsonStreamParseError>(JsonStreamParseError::InvalidNumber),
        decreases old(self).buffer@.len() - old(self).offset, 2int,
    {
        let n = self.states.len();
        if n == 0 {
            let complete = self.parse_element(false)?;
            if complete {
                let _ = self.states.pop();
            }
            return Ok(complete);
        }
        let top = self.states[n - 1];
        let complete = match top {
            ParserState::Array => self.parse_array()?,
            ParserState::Object(ek) => self.parse_object(ek)?,
            ParserState::ObjectKey => {
                let c = self.parse_string(true)?;
                if c {
                    let _ = self.states.pop();
                    self.set_parsing_object_expects_key(false);
                    self.states.push(ParserState::ObjectKey);
                }
                c
            },
            ParserState::ObjectValue => {
                self.skip_whitespace();
                self.parse_element(false)?
            },
            ParserState::ObjectColon => {
                let c = self.consume_char(58)?;
                self.skip_whitespace();
                c
            },
            ParserState::StringVal => self.parse_string(false)?,
            ParserState::Num(neg) => self.parse_number(neg)?,
            ParserState::True => self.parse_true()?,
            ParserState::False => self.parse_false()?,
            ParserState::Null => self.parse_null()?,
        };
        if complete {
            let _ = self.states.pop();
            let m = self.states.len();
            if m > 0 {
                let t2 = self.states[m - 1];
                match t2 {
                    ParserState::ObjectValue => {
                        let _ = self.states.pop();
                        self.set_parsing_object_expects_key(true);
                    },
                    _ => {},
                }
            }
        }
        Ok(complete)
    }

    /// Appends `chunk` and resumes parsing. Returns `Ok(true)` when the
    /// top-level value is complete, `Ok(false)` when more input is needed,
    /// and an error on malformed input (after which the parser's behaviour
    /// is unspecified). Events completed by this call are appended to the
    /// event list; all bytes ever fed are accounted for in `fed()`.
    ///
    /// The contract pins, besides the bookkeeping: `Ok(false)` is returned
    /// only once every fed byte has been examined; completing a document
    /// emits at least one event; and for a drained parser the whole outcome
    /// of a single-token document — the literals, a string, a bare number,
    /// or a stray first byte — including the exact event emitted, whose text
    /// is byte-equal to its source characters.
    pub fn parse(&mut self, chunk: &[u8]) -> (r: Result<bool, JsonStreamParseError>)
        requires
            old(self).wf(),
            old(self).ready(),
        ensures
            final(self).wf(),
            final(self).fed() == old(self).fed() + chunk@,
            old(self).sevents().is_prefix_of(final(self).sevents()),
            r matches Ok(b) ==> final(self).ready() && (b ==> final(self).idle()),
            r matches Ok(true) && old(self).idle() ==> final(self).sevents().len() > old(
                self,
            ).sevents().len(),
            r matches Ok(false) ==> final(self).examined() == final(self).fed().len(),
            old(self).drained() && leading_ws(chunk@) < chunk@.len() && !is_dispatch_byte(
                chunk@[leading_ws(chunk@)],
            ) ==> r == Err::<bool, JsonStreamParseError>(
                JsonStreamParseError::UnexpectedChar(chunk@[leading_ws(chunk@)] as char),
            ),
            old(self).drained() && bytes_at(
                chunk@,
                leading_ws(chunk@),
                seq![110u8, 117u8, 108u8, 108u8],
            ) ==> r == Ok::<bool, JsonStreamParseError>(true) && final(self).sevents() == old(
                self,
            ).sevents().push(JsonEvent::Null),
            old(self).drained() && bytes_at(
                chunk@,
                leading_ws(chunk@),
                seq![116u8, 114u8, 117u8, 101u8],
            ) ==> r == Ok::<bool, JsonStreamParseError>(true) && final(self).sevents() == old(
                self,
            ).sevents().push(JsonEvent::Bool(true)),
            old(self).drained() && bytes_at(
                chunk@,
                leading_ws(chunk@),
                seq![102u8, 97u8, 108u8, 115u8, 101u8],
            ) ==> r == Ok::<bool, JsonStreamParseError>(true) && final(self).sevents() == old(
                self,
            ).sevents().push(JsonEvent::Bool(false)),
            old(self).drained() && leading_ws(chunk@) < chunk@.len() && chunk@[leading_ws(chunk@)]
                == 34 && quote_end(chunk@, leading_ws(chunk@) + 1) < chunk@.len() && valid_utf8(
                chunk@.subrange(leading_ws(chunk@) + 1, quote_end(chunk@, leading_ws(chunk@) + 1)),
            ) ==> r == Ok::<bool, JsonStreamParseError>(true) && final(self).sevents().len() == old(
                self,
            ).sevents().len() + 1 && (final(self).sevents().last() matches JsonEvent::String(_))
                && encode_utf8(payload_of(final(self).sevents().last())) == chunk@.subrange(
                leading_ws(chunk@) + 1,
                quote_end(chunk@, leading_ws(chunk@) + 1),
            ),
            old(self).drained() && num_start(chunk@, leading_ws(chunk@)) is Some && num_run_end(
                chunk@,
                num_start(chunk@, leading_ws(chunk@))->0,
            ) < chunk@.len() ==> r == Err::<bool, JsonStreamParseError>(
                JsonStreamParseError::InvalidNumber,
            ),
            old(self).drained() && num_start(chunk@, leading_ws(chunk@)) is Some && num_run_end(
                chunk@,
                num_start(chunk@, leading_ws(chunk@))->0,
            ) == chunk@.len() && valid_number_body(
                chunk@.subrange(num_start(chunk@, leading_ws(chunk@))->0, chunk@.len() as int),
            ) ==> r == Ok::<bool, JsonStreamParseError>(true) && final(self).sevents().len() == old(
                self,
            ).sevents().len() + 1 && (final(self).sevents().last() matches JsonEvent::Number(_))
                && encode_utf8(payload_of(final(self).sevents().last())) == chunk@.subrange(
                leading_ws(chunk@),
                chunk@.len() as int,
            ),
            old(self).drained() && num_start(chunk@, leading_ws(chunk@)) is Some && num_run_end(
                chunk@,
                num_start(chunk@, leading_ws(chunk@))->0,
            ) == chunk@.len() && !valid_number_body(
                chunk@.subrange(num_start(chunk@, leading_ws(chunk@))->0, chunk@.len() as int),
            ) ==> r == Err::<bool, JsonStreamParseError>(JsonStreamParseError::InvalidNumber),
    {
        let ghost pre_drained = old(self).drained();
        self.append_buffer(chunk);
        let ghost base = self.offset as int;
        proof {
            if pre_drained {
                assert(self.states@.len() == 0 && self.start_pos == self.offset);
                assert(base + chunk@.len() == self.buffer@.len());
                assert forall|k: int|
                    0 <= k < chunk@.len() implies self.buffer@[base + k] == chunk@[k] by {
                    assert(self.buffer@[base + k] == self.input@[self.dropped@ + base + k]);
                    assert(self.dropped@ + base == old(self).input@.len());
                    assert(self.input@[old(self).input@.len() + k] == chunk@[k]);
                }
            }
        }
        if self.states.len() == 0 {
            self.skip_whitespace();
        }
        let ghost lw = leading_ws(chunk@);
        proof {
            if pre_drained {
                assert forall|w: Seq<u8>|
                    bytes_at(chunk@, lw, w) implies #[trigger] bytes_at(
                    self.buffer@,
                    base + lw,
                    w,
                ) by {
                    lemma_leading_ws(chunk@);
                    assert(forall|k: int|
                        0 <= k < w.len() ==> self.buffer@[base + lw + k] == chunk@[lw + #[trigger] (k + 0)]) by {
                        assert(forall|k: int|
                            0 <= k < w.len() ==> self.buffer@[base + (lw + k)] == #[trigger] chunk@[
                                lw + k
                            ]);
                    }
                }
                lemma_leading_ws(chunk@);
                if lw < chunk@.len() && (is_digit_byte(chunk@[lw]) || chunk@[lw] == 45) {
                    // the numeric run in the buffer corresponds to the
                    // numeric run in the chunk, and ends with the input
                    let stc = num_start(chunk@, lw)->0;
                    lemma_num_run_end(chunk@, stc);
                    lemma_num_run_end(self.buffer@, base + stc);
                    let nc = num_run_end(chunk@, stc);
                    let nb = num_run_end(self.buffer@, base + stc);
                    assert(num_start(self.buffer@, base + lw) == Some(base + stc)) by {
                        assert(self.buffer@[base + lw] == chunk@[lw]);
                    }
                    assert(nb == base + nc) by {
                        if nb < base + nc {
                            assert(is_num_class_byte(chunk@[nb - base]));
                            assert(self.buffer@[nb] == chunk@[nb - base]);
                        } else if nb > base + nc {
                            if nc < chunk@.len() {
                                assert(self.buffer@[base + nc] == chunk@[nc]);
                                assert(is_num_class_byte(self.buffer@[base + nc]));
                            }
                        }
                    }
                    assert(self.buffer@.subrange(base + stc, self.buffer@.len() as int)
                        =~= chunk@.subrange(stc, chunk@.len() as int));
                    assert(self.buffer@.subrange(base + lw, self.buffer@.len() as int)
                        =~= chunk@.subrange(lw, chunk@.len() as int));
                }
                if lw < chunk@.len() && chunk@[lw] == 34 {
                    // the first closing quote in the buffer corresponds to
                    // the first closing quote in the chunk
                    let qc = quote_end(chunk@, lw + 1);
                    lemma_quote_end(chunk@, lw + 1);
                    lemma_quote_end(self.buffer@, base + lw + 1);
                    let qb = quote_end(self.buffer@, base + lw + 1);
                    if qc < chunk@.len() {
                        assert(qb == base + qc) by {
                            assert(self.buffer@[base + qc] == chunk@[qc]);
                            if qb < base + qc {
                                assert(chunk@[qb - base] != 34);
                                assert(self.buffer@[qb] == chunk@[qb - base]);
                            } else if qb > base + qc {
                                assert(self.buffer@[base + qc] != 34);
                            }
                        }
                        assert(self.buffer@.subrange(base + lw + 1, base + qc) =~= chunk@.subrange(
                            lw + 1,
                            qc,
                        ));
                    }
                }
                lemma_leading_ws(chunk@);
                // the whitespace skip stopped exactly at the chunk's first
                // non-whitespace byte
                assert(self.offset == base + lw) by {
                    let stop = self.offset as int;
                    if stop < base + lw {
                        assert(is_ws_byte(chunk@[stop - base]));
                        assert(!is_ws_byte(self.buffer@[stop]));
                    } else if stop > base + lw {
                        assert(is_ws_byte(self.buffer@[base + lw]));
                        if lw < chunk@.len() {
                            assert(!is_ws_byte(chunk@[lw]));
                        }
                    }
                }
            }
        }
        let mut complete = self.parse_value()?;
        if !complete || self.states.len() == 0 {
            return Ok(complete);
        }
        loop
            invariant
                self.wf(),
                self.ready(),
                self.input@ == old(self).input@ + chunk@,
                old(self).events@.is_prefix_of(self.events@),
                !complete ==> self.offset == self.buffer@.len(),
                !old(self).idle(),
                !(old(self).drained() && settles_immediately(chunk@)),
            decreases self.states@.len(),
        {
            if !complete || self.states.len() == 0 {
                return Ok(complete);
            }
            complete = self.parse_value()?;
            if !complete {
                return Ok(false);
            }
        }
    }

    /// Appends `chunk` to the buffer; when that would grow the buffer past
    /// its intended capacity, first discards the digested prefix `[0,
    /// start_pos)` (the only time buffered bytes move).
    fn append_buffer(&mut self, chunk: &[u8])
        requires
            old(self).wf(),
        ensures
            final(self).wf(),
            final(self).input@ == old(self).input@ + chunk@,
            final(self).states@ == old(self).states@,
            final(self).events@ == old(self).events@,
            final(self).offset - final(self).start_pos == old(self).offset - old(self).start_pos,
            final(self).dropped@ + final(self).start_pos == old(self).dropped@ + old(self).start_pos,
    {
        let fits = self.buffer.len() as u128 + chunk.len() as u128 <= BUF_CAP as u128;
        if !fits {
            let s = self.start_pos;
            let mut nb: Vec<u8> = Vec::new();
            let mut i = s;
            while i < self.buffer.len()
                invariant
                    s <= i <= self.buffer@.len(),
                    nb@ == self.buffer@.subrange(s as int, i as int),
                decreases self.buffer@.len() - i,
            {
                nb.push(self.buffer[i]);
                proof {
                    assert(nb@ =~= self.buffer@.subrange(s as int, i + 1));
                }
                i = i + 1;
            }
            self.buffer = nb;
            self.offset = self.offset - s;
            self.start_pos = 0;
            self.dropped = Ghost(self.dropped@ + s);
        }
        self.buffer.extend_from_slice(chunk);
        self.input = Ghost(self.input@ + chunk@);
        proof {
            assert(self.buffer@ =~= self.input@.subrange(self.dropped@, self.input@.len() as int));
        }
    }
}

/// Checks `valid_mantissa` on `b[lo..hi]`.
fn check_mantissa(b: &Vec<u8>, lo: usize, hi: usize) -> (r: bool)
    requires
        lo <= hi <= b@.len(),
    ensures
        r == valid_mantissa(b@.subrange(lo as int, hi as int)),
{
    let ghost s = b@.subrange(lo as int, hi as int);
    let mut i = lo;
    let mut dot: Option<usize> = None;
    while i < hi
        invariant
            lo <= i <= hi <= b@.len(),
            s == b@.subrange(lo as int, hi as int),
            match dot {
                None => forall|j: int| lo <= j < i ==> is_digit_byte(#[trigger] b@[j]),
                Some(d) => lo <= d < i && b@[d as int] == 46 && (forall|j: int|
                    lo <= j < i && j != d ==> is_digit_byte(#[trigger] b@[j])),
            },
        decreases hi - i,
    {
        let c = b[i];
        if 48 <= c && c <= 57 {
        } else if c == 46 {
            match dot {
                None => {
                    dot = Some(i);
                },
                Some(d) => {
                    proof {
                        assert(!valid_mantissa(s)) by {
                            assert(s[d - lo] == 46 && s[i - lo] == 46 && d != i);
                            if valid_mantissa(s) {
                                if forall|j: int|
                                    0 <= j < s.len() ==> is_digit_byte(#[trigger] s[j]) {
                                    assert(is_digit_byte(s[d - lo]));
                                } else {
                                    let w = choose|w: int|
                                        0 <= w < s.len() && s[w] == 46 && (forall|j: int|
                                            0 <= j < s.len() && j != w ==> is_digit_byte(
                                                #[trigger] s[j],
                                            ));
                                    if w != d - lo {
                                        assert(is_digit_byte(s[d - lo]));
                                    } else {
                                        assert(is_digit_byte(s[i - lo]));
                                    }
                                }
                            }
                        }
                    }
                    return false;
                },
            }
        } else {
            proof {
                assert(!valid_mantissa(s)) by {
                    assert(s[i - lo] == c && !is_digit_byte(c) && c != 46);
                    if valid_mantissa(s) {
                        if forall|j: int| 0 <= j < s.len() ==> is_digit_byte(#[trigger] s[j]) {
                            assert(is_digit_byte(s[i - lo]));
                        } else {
                            let w = choose|w: int|
                                0 <= w < s.len() && s[w] == 46 && (forall|j: int|
                                    0 <= j < s.len() && j != w ==> is_digit_byte(
                                        #[trigger] s[j],
                                    ));
                            assert(w != i - lo);
                            assert(is_digit_byte(s[i - lo]));
                        }
                    }
                }
            }
            return false;
        }
        i = i + 1;
    }
    match dot {
        None => {
            if hi > lo {
                proof {
                    assert(valid_mantissa(s)) by {
                        assert(forall|j: int|
                            0 <= j < s.len() ==> is_digit_byte(#[trigger] s[j])) by {
                            assert(forall|j: int|
                                0 <= j < s.len() ==> s[j] == b@[lo + j] && is_digit_byte(
                                    #[trigger] b@[lo + j],
                                ));
                        }
                    }
                }
                true
            } else {
                false
            }
        },
        Some(d) => {
            if hi - lo >= 2 {
                proof {
                    assert(valid_mantissa(s)) by {
                        assert(s[d - lo] == 46);
                        assert(forall|j: int|
                            0 <= j < s.len() && j != d - lo ==> is_digit_byte(
                                #[trigger] s[j],
                            )) by {
                            assert(forall|j: int|
                                lo <= j < hi && j != d ==> is_digit_byte(#[trigger] b@[j]));
                            assert(forall|j: int|
                                0 <= j < s.len() && j != d - lo ==> s[j] == b@[lo + j]);
                        }
                    }
                }
                true
            } else {
                proof {
                    assert(!valid_mantissa(s)) by {
                        assert(s.len() == 1 && s[0] == 46);
                    }
                }
                false
            }
        },
    }
}

/// Checks `valid_exponent` on `b[lo..hi]`.
fn check_exponent(b: &Vec<u8>, lo: usize, hi: usize) -> (r: bool)
    requires
        lo <= hi <= b@.len(),
    ensures
        r == valid_exponent(b@.subrange(lo as int, hi as int)),
{
    let ghost s = b@.subrange(lo as int, hi as int);
    if lo >= hi {
        return false;
    }
    let first = b[lo];
    let start = if first == 45 {
        lo + 1
    } else {
        lo
    };
    if start >= hi {
        proof {
            assert(!valid_exponent(s));
        }
        return false;
    }
    let mut i = start;
    while i < hi
        invariant
            lo <= start <= i <= hi <= b@.len(),
            s == b@.subrange(lo as int, hi as int),
            start == lo + (if b@[lo as int] == 45 {
                1int
            } else {
                0int
            }),
            forall|j: int| start <= j < i ==> is_digit_byte(#[trigger] b@[j]),
        decreases hi - i,
    {
        let c = b[i];
        if c < 48 || c > 57 {
            proof {
                assert(!valid_exponent(s)) by {
                    assert(s[i - lo] == c && !is_digit_byte(c));
                    assert(i - lo >= 1 || s[0] != 45);
                }
            }
            return false;
        }
        i = i + 1;
    }
    proof {
        assert(valid_exponent(s)) by {
            assert(forall|j: int| start - lo <= j < s.len() ==> s[j] == b@[lo + j]);
            if s[0] == 45 {
                assert(s.len() >= 2);
                assert(forall|j: int| 1 <= j < s.len() ==> is_digit_byte(#[trigger] s[j]));
            } else {
                assert(forall|j: int| 0 <= j < s.len() ==> is_digit_byte(#[trigger] s[j]));
            }
        }
    }
    true
}

/// Checks `valid_number_body` on the whole of `b`.
fn check_number_body(b: &Vec<u8>) -> (r: bool)
    ensures
        r == valid_number_body(b@),
{
    let n = b.len();
    let mut i: usize = 0;
    let mut found = false;
    while i < n && !found
        invariant
            i <= n,
            n == b@.len(),
            found ==> i < n && (b@[i as int] == 101 || b@[i as int] == 69),
            forall|j: int| 0 <= j < i ==> b@[j] != 101 && b@[j] != 69,
        decreases n - i + (if found {
            0int
        } else {
            1int
        }),
    {
        let c = b[i];
        if c == 101 || c == 69 {
            found = true;
        } else {
            i = i + 1;
        }
    }
    if !found {
        let r = check_mantissa(b, 0, n);
        proof {
            assert(b@.subrange(0, n as int) =~= b@);
            assert(valid_number_body(b@) == valid_mantissa(b@)) by {
                if exists|w: int|
                    0 <= w < b@.len() && (b@[w] == 101 || b@[w] == 69) && valid_mantissa(
                        b@.subrange(0, w),
                    ) && valid_exponent(b@.subrange(w + 1, b@.len() as int)) {
                    let w = choose|w: int|
                        0 <= w < b@.len() && (b@[w] == 101 || b@[w] == 69) && valid_mantissa(
                            b@.subrange(0, w),
                        ) && valid_exponent(b@.subrange(w + 1, b@.len() as int));
                    assert(b@[w] != 101 && b@[w] != 69);
                }
            }
        }
        r
    } else {
        let rm = check_mantissa(b, 0, i);
        let re = check_exponent(b, i + 1, n);
        let r = rm && re;
        proof {
            assert(valid_number_body(b@) == (rm && re)) by {
                if rm && re {
                    assert(0 <= i < b@.len() && (b@[i as int] == 101 || b@[i as int] == 69));
                }
                if valid_number_body(b@) {
                    if valid_mantissa(b@) {
                        assert(is_digit_byte(b@[i as int]) || b@[i as int] == 46) by {
                            if forall|j: int|
                                0 <= j < b@.len() ==> is_digit_byte(#[trigger] b@[j]) {
                                assert(is_digit_byte(b@[i as int]));
                            } else {
                                let w = choose|w: int|
                                    0 <= w < b@.len() && b@[w] == 46 && (forall|j: int|
                                        0 <= j < b@.len() && j != w ==> is_digit_byte(
                                            #[trigger] b@[j],
                                        ));
                                if w != i {
                                    assert(is_digit_byte(b@[i as int]));
                                }
                            }
                        }
                        assert(false);
                    } else {
                        let w = choose|w: int|
                            0 <= w < b@.len() && (b@[w] == 101 || b@[w] == 69) && valid_mantissa(
                                b@.subrange(0, w),
                            ) && valid_exponent(b@.subrange(w + 1, b@.len() as int));
                        assert(w >= i);
                        if w > i {
                            let ghost sm = b@.subrange(0, w);
                            assert(!valid_mantissa(sm)) by {
                                assert(sm[i as int] == b@[i as int]);
                                assert(!is_digit_byte(sm[i as int]) && sm[i as int] != 46);
                                if forall|j: int|
                                    0 <= j < sm.len() ==> is_digit_byte(#[trigger] sm[j]) {
                                    assert(is_digit_byte(sm[i as int]));
                                } else {
                                    let w2 = choose|w2: int|
                                        0 <= w2 < sm.len() && sm[w2] == 46 && (forall|j: int|
                                            0 <= j < sm.len() && j != w2 ==> is_digit_byte(
                                                #[trigger] sm[j],
                                            ));
                                    assert(w2 != i);
                                    assert(is_digit_byte(sm[i as int]));
                                }
                            }
                            assert(false);
                        }
                        assert(w == i);
                    }
                }
            }
        }
        r
    }
}

/// A decimal digit byte.
pub open spec fn is_digit_byte(b: u8) -> bool {
    48 <= b <= 57
}

/// The bytes that may begin a JSON element: the literals' initials, a quote,
/// an opening bracket or brace, a digit or a minus sign.
pub open spec fn is_dispatch_byte(b: u8) -> bool {
    b == 110 || b == 116 || b == 102 || b == 34 || b == 91 || b == 123 || is_digit_byte(b) || b
        == 45
}

/// A byte of the permissive numeric lexical class: digits, dot, minus and
/// the exponent markers.
pub open spec fn is_num_class_byte(b: u8) -> bool {
    is_digit_byte(b) || b == 46 || b == 45 || b == 101 || b == 69
}

/// A valid mantissa: digits with at most one dot and at least one digit
/// (`5`, `5.`, `.5`, `5.5`; not `.` and not empty). This is the standard
/// float parser's mantissa grammar over this byte class.
pub open spec fn valid_mantissa(s: Seq<u8>) -> bool {
    (s.len() >= 1 && forall|j: int| 0 <= j < s.len() ==> is_digit_byte(#[trigger] s[j])) || (
    s.len() >= 2 && exists|d: int|
        0 <= d < s.len() && s[d] == 46 && (forall|j: int|
            0 <= j < s.len() && j != d ==> is_digit_byte(#[trigger] s[j])))
}

/// A valid exponent body (the part after `e`/`E`): an optional minus sign
/// followed by at least one digit.
pub open spec fn valid_exponent(s: Seq<u8>) -> bool {
    if s.len() == 0 {
        false
    } else if s[0] == 45 {
        s.len() >= 2 && forall|j: int| 1 <= j < s.len() ==> is_digit_byte(#[trigger] s[j])
    } else {
        forall|j: int| 0 <= j < s.len() ==> is_digit_byte(#[trigger] s[j])
    }
}

/// A valid unsigned number body: a mantissa, optionally followed by `e` or
/// `E` and an exponent. This is the grammar the standard float parser
/// accepts restricted to the numeric byte class, the leading minus being
/// handled separately.
pub open spec fn valid_number_body(s: Seq<u8>) -> bool {
    valid_mantissa(s) || exists|i: int|
        0 <= i < s.len() && (s[i] == 101 || s[i] == 69) && valid_mantissa(s.subrange(0, i))
            && valid_exponent(s.subrange(i + 1, s.len() as int))
}

/// The whitespace bytes the tokenizer skips between tokens.
pub open spec fn is_ws_byte(b: u8) -> bool {
    b == 32 || b == 9 || b == 10 || b == 13 || b == 11 || b == 12 || b == 133 || b == 160
}

/// The bytes of `c` starting at `i` are exactly `w`.
pub open spec fn bytes_at(c: Seq<u8>, i: int, w: Seq<u8>) -> bool {
    0 <= i && i + w.len() <= c.len() && forall|k: int| 0 <= k < w.len() ==> c[i + k] == #[trigger] w[k]
}

/// Chunk shapes whose outcome `parse` settles on the first dispatch when the
/// parser starts out drained: a stray first byte, or one of the literals.
pub open spec fn settles_immediately(c: Seq<u8>) -> bool {
    let lw = leading_ws(c);
    ||| (lw < c.len() && !is_dispatch_byte(c[lw]))
    ||| bytes_at(c, lw, seq![110u8, 117u8, 108u8, 108u8])
    ||| bytes_at(c, lw, seq![116u8, 114u8, 117u8, 101u8])
    ||| bytes_at(c, lw, seq![102u8, 97u8, 108u8, 115u8, 101u8])
    ||| (lw < c.len() && c[lw] == 34 && quote_end(c, lw + 1) < c.len() && valid_utf8(
        c.subrange(lw + 1, quote_end(c, lw + 1)),
    ))
    ||| (lw < c.len() && (is_digit_byte(c[lw]) || c[lw] == 45))
}

/// The first index at or after `i` holding a quote byte, or the length of
/// `c` when there is none.
pub open spec fn quote_end(c: Seq<u8>, i: int) -> int
    decreases c.len() - i
        when 0 <= i <= c.len()
{
    if i < 0 || i >= c.len() {
        c.len() as int
    } else if c[i] == 34 {
        i
    } else {
        quote_end(c, i + 1)
    }
}

/// `quote_end` marks the first quote byte: everything from `i` up to it is
/// not a quote, and the byte at it, if any, is one.
pub proof fn lemma_quote_end(c: Seq<u8>, i: int)
    requires
        0 <= i <= c.len(),
    ensures
        i <= quote_end(c, i) <= c.len(),
        forall|j: int| i <= j < quote_end(c, i) ==> c[j] != 34,
        quote_end(c, i) < c.len() ==> c[quote_end(c, i)] == 34,
    decreases c.len() - i,
{
    if i < c.len() && c[i] != 34 {
        lemma_quote_end(c, i + 1);
    }
}

/// The first index at or after `i` holding a byte outside the numeric
/// lexical class, or the length of `c` when there is none.
pub open spec fn num_run_end(c: Seq<u8>, i: int) -> int
    decreases c.len() - i
        when 0 <= i <= c.len()
{
    if i < 0 || i >= c.len() {
        c.len() as int
    } else if !is_num_class_byte(c[i]) {
        i
    } else {
        num_run_end(c, i + 1)
    }
}

/// When the byte at `i` begins a number (a digit or a minus sign), the index
/// where its unsigned body starts; `None` otherwise.
pub open spec fn num_start(c: Seq<u8>, i: int) -> Option<int> {
    if 0 <= i < c.len() && is_digit_byte(c[i]) {
        Some(i)
    } else if 0 <= i < c.len() && c[i] == 45 {
        Some(i + 1)
    } else {
        None
    }
}

/// `num_run_end` marks the first byte outside the numeric class: everything
/// from `i` up to it is in the class and the byte at it, if any, is not.
pub proof fn lemma_num_run_end(c: Seq<u8>, i: int)
    requires
        0 <= i <= c.len(),
    ensures
        i <= num_run_end(c, i) <= c.len(),
        forall|j: int| i <= j < num_run_end(c, i) ==> is_num_class_byte(#[trigger] c[j]),
        num_run_end(c, i) < c.len() ==> !is_num_class_byte(c[num_run_end(c, i)]),
    decreases c.len() - i,
{
    if i < c.len() && is_num_class_byte(c[i]) {
        lemma_num_run_end(c, i + 1);
    }
}

/// A sequence of bytes below 128 is valid UTF-8 (each byte encodes itself).
proof fn lemma_ascii_valid_utf8(s: Seq<u8>)
    requires
        forall|j: int| 0 <= j < s.len() ==> (#[trigger] s[j]) < 128,
    ensures
        valid_utf8(s),
{
    let chars = Seq::new(s.len(), |i: int| s[i] as char);
    assert(vstd::utf8::is_ascii_chars(chars)) by {
        assert forall|i: int|
            0 <= i < chars.len() implies '\0' <= #[trigger] chars[i] <= '\u{7f}' by {
            assert(s[i] < 128);
        }
    }
    vstd::utf8::is_ascii_chars_encode_utf8(chars);
    vstd::utf8::encode_utf8_valid_utf8(chars);
    assert(encode_utf8(chars) =~= s);
}

/// The number of leading whitespace bytes of `s`.
pub open spec fn leading_ws(s: Seq<u8>) -> int
    decreases s.len(),
{
    if s.len() == 0 {
        0
    } else if is_ws_byte(s[0]) {
        1 + leading_ws(s.drop_first())
    } else {
        0
    }
}

/// `leading_ws` marks the first non-whitespace byte: everything before it is
/// whitespace and the byte at it, if any, is not.
pub proof fn lemma_leading_ws(s: Seq<u8>)
    ensures
        0 <= leading_ws(s) <= s.len(),
        forall|j: int| 0 <= j < leading_ws(s) ==> is_ws_byte(#[trigger] s[j]),
        leading_ws(s) < s.len() ==> !is_ws_byte(s[leading_ws(s)]),
    decreases s.len(),
{
    if s.len() > 0 && is_ws_byte(s[0]) {
        lemma_leading_ws(s.drop_first());
        assert forall|j: int| 0 <= j < leading_ws(s) implies is_ws_byte(#[trigger] s[j]) by {
            if j > 0 {
                assert(s.drop_first()[j - 1] == s[j]);
                assert(is_ws_byte(s.drop_first()[j - 1]));
            }
        }
        if leading_ws(s) < s.len() {
            assert(s.drop_first()[leading_ws(s) - 1] == s[leading_ws(s)]);
        }
    }
}

/// Runtime test for [`is_ws_byte`].
fn ws_byte(b: u8) -> (r: bool)
    ensures
        r == is_ws_byte(b),
{
    b == 32 || b == 9 || b == 10 || b == 13 || b == 11 || b == 12 || b == 133 || b == 160
}

} // verus!
