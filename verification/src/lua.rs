//! Push/pop marshalling protocol for the interpreter's evaluation stack.
//!
//! A [`Stack`] models the evaluation stack of one interpreter execution
//! context; every protocol operation threads an explicit stack handle, so
//! independent contexts can coexist. [`Pushable`] moves a native value onto
//! the stack, consuming it; [`Poppable`] takes the top slot off the stack
//! and converts it into a native value. Both carry exact contracts:
//!
//! - a successful push appends exactly the slots the value encodes to and
//!   returns their count; a failed push leaves the stack depth unchanged,
//!   also for composites that fail midway;
//! - a pop removes exactly the top slot, on success and on failure alike,
//!   and reports a tag mismatch or a decode failure exactly when the slot
//!   does not decode to the requested type.

use vstd::prelude::*;
use vstd::string::StrSliceExecFns;
use vstd::utf8::{encode_utf8, encode_utf8_decode_utf8};

use crate::error::{MarshalError, Tag};
use crate::string::NvimString;
use crate::text::{bytes_as_str, is_valid_text, scan_text, text_fault};

verus! {

/// Value held by one interpreter stack slot.
pub enum Slot {
    Nil,
    Bool(bool),
    Int(i64),
    Str(Vec<u8>),
}

/// Spec-level model of a stack slot.
pub ghost enum SlotView {
    Nil,
    Bool(bool),
    Int(i64),
    Str(Seq<u8>),
}

impl View for Slot {
    type V = SlotView;

    open spec fn view(&self) -> SlotView {
        match self {
            Slot::Nil => SlotView::Nil,
            Slot::Bool(b) => SlotView::Bool(*b),
            Slot::Int(n) => SlotView::Int(*n),
            Slot::Str(v) => SlotView::Str(v@),
        }
    }
}

/// Interpreter-level tag of a slot model.
pub open spec fn tag_of(v: SlotView) -> Tag {
    match v {
        SlotView::Nil => Tag::Nil,
        SlotView::Bool(_) => Tag::Bool,
        SlotView::Int(_) => Tag::Int,
        SlotView::Str(_) => Tag::Str,
    }
}

/// Tag of a concrete slot.
pub fn slot_tag(s: &Slot) -> (t: Tag)
    ensures
        t == tag_of(s@),
{
    match s {
        Slot::Nil => Tag::Nil,
        Slot::Bool(_) => Tag::Bool,
        Slot::Int(_) => Tag::Int,
        Slot::Str(_) => Tag::Str,
    }
}

/// The evaluation stack of one interpreter execution context. Its view is
/// the sequence of slot models, bottom first.
pub struct Stack {
    slots: Vec<Slot>,
}

impl View for Stack {
    type V = Seq<SlotView>;

    closed spec fn view(&self) -> Seq<SlotView> {
        self.slots@.map_values(|s: Slot| s@)
    }
}

impl Stack {
    /// A fresh, empty execution context.
    pub fn new() -> (r: Self)
        ensures
            r@ == Seq::<SlotView>::empty(),
    {
        let r = Stack { slots: Vec::new() };
        proof {
            assert(r@ =~= Seq::<SlotView>::empty());
        }
        r
    }

    /// Current number of occupied slots.
    pub fn depth(&self) -> (n: usize)
        ensures
            n == self@.len(),
    {
        self.slots.len()
    }

    /// Writes one raw slot on top of the stack.
    pub fn push_slot(&mut self, s: Slot)
        ensures
            final(self)@ == old(self)@.push(s@),
    {
        let ghost v = s@;
        self.slots.push(s);
        proof {
            assert(self@ =~= old(self)@.push(v));
        }
    }

    /// Removes and returns the top slot; `None` on an empty stack, which
    /// is left unchanged.
    pub fn pop_slot(&mut self) -> (r: Option<Slot>)
        ensures
            old(self)@.len() == 0 ==> r is None && final(self)@ == old(self)@,
            old(self)@.len() > 0 ==> (r matches Some(s) && s@ == old(self)@.last() && final(self)@
                == old(self)@.drop_last()),
    {
        let r = self.slots.pop();
        proof {
            if old(self)@.len() > 0 {
                assert(self@ =~= old(self)@.drop_last());
            } else {
                assert(self@ =~= old(self)@);
            }
        }
        r
    }

    /// Discards every slot above depth `depth`, restoring an earlier
    /// stack level; a no-op when the stack is already at most that deep.
    pub fn truncate(&mut self, depth: usize)
        ensures
            depth <= old(self)@.len() ==> final(self)@ == old(self)@.take(depth as int),
            depth > old(self)@.len() ==> final(self)@ == old(self)@,
    {
        self.slots.truncate(depth);
        proof {
            if depth <= old(self)@.len() {
                assert(self@ =~= old(self)@.take(depth as int));
            } else {
                assert(self@ =~= old(self)@);
            }
        }
    }
}

/// A native value that can be written onto the interpreter stack.
pub trait Pushable: Sized {
    /// Whether the value can be encoded at all.
    spec fn encodable(&self) -> bool;

    /// The slots the value encodes to, bottom first.
    spec fn encoded(&self) -> Seq<SlotView>;

    /// The error reported when the value cannot be encoded.
    spec fn encode_fault(&self) -> MarshalError;

    /// Consumes `self` and writes its representation onto `stack`,
    /// returning the number of slots produced. A failed push restores the
    /// stack depth to its pre-call value.
    fn push(self, stack: &mut Stack) -> (r: Result<usize, MarshalError>)
        ensures
            self.encodable() ==> (r matches Ok(n) && n == self.encoded().len() && final(stack)@
                == old(stack)@ + self.encoded()),
            !self.encodable() ==> (r matches Err(e) && e == self.encode_fault() && final(stack)@
                == old(stack)@),
    ;
}

/// A native value that can be read off the interpreter stack.
pub trait Poppable: Sized {
    /// Whether a slot with this model decodes into `Self`.
    spec fn decodable(v: SlotView) -> bool;

    /// Relation between a slot model and the values it may decode to; a
    /// decoded value is determined up to its view.
    spec fn decodes_to(v: SlotView, x: Self) -> bool;

    /// The error reported for a slot that does not decode.
    spec fn decode_fault(v: SlotView) -> MarshalError;

    /// The tag this type expects on top of the stack, spec level.
    spec fn wanted_tag() -> Tag;

    /// The tag this type expects on top of the stack, named in errors.
    fn expected_tag() -> (t: Tag)
        ensures
            t == Self::wanted_tag(),
    ;

    /// Removes the top slot from `stack` and converts it into a native
    /// value. Exactly one slot is removed whenever the stack is non-empty,
    /// on success and on failure alike; an empty stack is reported as a
    /// tag mismatch with no tag found and is left unchanged.
    fn pop(stack: &mut Stack) -> (r: Result<Self, MarshalError>)
        ensures
            old(stack)@.len() == 0 ==> (r matches Err(e) && e == (MarshalError::TypeMismatch {
                expected: Self::wanted_tag(),
                found: None,
            }) && final(stack)@ == old(stack)@),
            old(stack)@.len() > 0 ==> final(stack)@ == old(stack)@.drop_last(),
            old(stack)@.len() > 0 && Self::decodable(old(stack)@.last()) ==> (r matches Ok(x)
                && Self::decodes_to(old(stack)@.last(), x)),
            old(stack)@.len() > 0 && !Self::decodable(old(stack)@.last()) ==> (r matches Err(e)
                && e == Self::decode_fault(old(stack)@.last())),
    ;
}

impl Pushable for bool {
    open spec fn encodable(&self) -> bool {
        true
    }

    open spec fn encoded(&self) -> Seq<SlotView> {
        seq![SlotView::Bool(*self)]
    }

    open spec fn encode_fault(&self) -> MarshalError {
        arbitrary()
    }

    fn push(self, stack: &mut Stack) -> (r: Result<usize, MarshalError>) {
        stack.push_slot(Slot::Bool(self));
        proof {
            assert(stack@ =~= old(stack)@ + self.encoded());
        }
        Ok(1)
    }
}

impl Poppable for bool {
    open spec fn decodable(v: SlotView) -> bool {
        v is Bool
    }

    open spec fn decodes_to(v: SlotView, x: bool) -> bool {
        v == SlotView::Bool(x)
    }

    open spec fn decode_fault(v: SlotView) -> MarshalError {
        MarshalError::TypeMismatch { expected: Tag::Bool, found: Some(tag_of(v)) }
    }

    open spec fn wanted_tag() -> Tag {
        Tag::Bool
    }

    fn expected_tag() -> (t: Tag) {
        Tag::Bool
    }

    fn pop(stack: &mut Stack) -> (r: Result<bool, MarshalError>) {
        match stack.pop_slot() {
            Option::None => Result::Err(
                MarshalError::TypeMismatch { expected: Tag::Bool, found: None },
            ),
            Option::Some(Slot::Bool(b)) => Result::Ok(b),
            Option::Some(s) => Result::Err(
                MarshalError::TypeMismatch { expected: Tag::Bool, found: Some(slot_tag(&s)) },
            ),
        }
    }
}

impl Pushable for i64 {
    open spec fn encodable(&self) -> bool {
        true
    }

    open spec fn encoded(&self) -> Seq<SlotView> {
        seq![SlotView::Int(*self)]
    }

    open spec fn encode_fault(&self) -> MarshalError {
        arbitrary()
    }

    fn push(self, stack: &mut Stack) -> (r: Result<usize, MarshalError>) {
        stack.push_slot(Slot::Int(self));
        proof {
            assert(stack@ =~= old(stack)@ + self.encoded());
        }
        Ok(1)
    }
}

impl Poppable for i64 {
    open spec fn decodable(v: SlotView) -> bool {
        v is Int
    }

    open spec fn decodes_to(v: SlotView, x: i64) -> bool {
        v == SlotView::Int(x)
    }

    open spec fn decode_fault(v: SlotView) -> MarshalError {
        MarshalError::TypeMismatch { expected: Tag::Int, found: Some(tag_of(v)) }
    }

    open spec fn wanted_tag() -> Tag {
        Tag::Int
    }

    fn expected_tag() -> (t: Tag) {
        Tag::Int
    }

    fn pop(stack: &mut Stack) -> (r: Result<i64, MarshalError>) {
        match stack.pop_slot() {
            Option::None => Result::Err(
                MarshalError::TypeMismatch { expected: Tag::Int, found: None },
            ),
            Option::Some(Slot::Int(n)) => Result::Ok(n),
            Option::Some(s) => Result::Err(
                MarshalError::TypeMismatch { expected: Tag::Int, found: Some(slot_tag(&s)) },
            ),
        }
    }
}

impl Pushable for NvimString {
    open spec fn encodable(&self) -> bool {
        true
    }

    open spec fn encoded(&self) -> Seq<SlotView> {
        seq![SlotView::Str(self@)]
    }

    open spec fn encode_fault(&self) -> MarshalError {
        arbitrary()
    }

    /// The interpreter copies the bytes length-first, so embedded zero
    /// bytes survive the crossing.
    fn push(self, stack: &mut Stack) -> (r: Result<usize, MarshalError>) {
        let ghost me = self@;
        let bytes = self.into_bytes();
        stack.push_slot(Slot::Str(bytes));
        proof {
            assert(stack@ =~= old(stack)@ + seq![SlotView::Str(me)]);
        }
        Ok(1)
    }
}

impl Poppable for NvimString {
    open spec fn decodable(v: SlotView) -> bool {
        v is Str
    }

    open spec fn decodes_to(v: SlotView, x: NvimString) -> bool {
        v matches SlotView::Str(b) && x@ == b
    }

    open spec fn decode_fault(v: SlotView) -> MarshalError {
        MarshalError::TypeMismatch { expected: Tag::Str, found: Some(tag_of(v)) }
    }

    open spec fn wanted_tag() -> Tag {
        Tag::Str
    }

    fn expected_tag() -> (t: Tag) {
        Tag::Str
    }

    fn pop(stack: &mut Stack) -> (r: Result<NvimString, MarshalError>) {
        match stack.pop_slot() {
            Option::None => Result::Err(
                MarshalError::TypeMismatch { expected: Tag::Str, found: None },
            ),
            Option::Some(Slot::Str(b)) => Result::Ok(NvimString::from_bytes(b)),
            Option::Some(s) => Result::Err(
                MarshalError::TypeMismatch { expected: Tag::Str, found: Some(slot_tag(&s)) },
            ),
        }
    }
}

impl Pushable for std::string::String {
    /// Owned text crosses as a C string, so it must be strict text: its
    /// UTF-8 bytes may not contain a zero byte.
    open spec fn encodable(&self) -> bool {
        is_valid_text(encode_utf8(self@))
    }

    open spec fn encoded(&self) -> Seq<SlotView> {
        seq![SlotView::Str(encode_utf8(self@))]
    }

    open spec fn encode_fault(&self) -> MarshalError {
        MarshalError::InvalidEncoding { offset: text_fault(encode_utf8(self@)) as usize }
    }

    fn push(self, stack: &mut Stack) -> (r: Result<usize, MarshalError>) {
        let bytes = self.as_str().as_bytes_vec();
        match scan_text(bytes.as_slice()) {
            Option::None => {
                stack.push_slot(Slot::Str(bytes));
                proof {
                    assert(stack@ =~= old(stack)@ + self.encoded());
                }
                Ok(1)
            },
            Option::Some(off) => Result::Err(MarshalError::InvalidEncoding { offset: off }),
        }
    }
}

impl Poppable for std::string::String {
    open spec fn decodable(v: SlotView) -> bool {
        v matches SlotView::Str(b) && is_valid_text(b)
    }

    open spec fn decodes_to(v: SlotView, x: std::string::String) -> bool {
        v matches SlotView::Str(b) && encode_utf8(x@) == b
    }

    open spec fn decode_fault(v: SlotView) -> MarshalError {
        match v {
            SlotView::Str(b) => MarshalError::Decode { offset: text_fault(b) as usize },
            _ => MarshalError::TypeMismatch { expected: Tag::Str, found: Some(tag_of(v)) },
        }
    }

    open spec fn wanted_tag() -> Tag {
        Tag::Str
    }

    fn expected_tag() -> (t: Tag) {
        Tag::Str
    }

    fn pop(stack: &mut Stack) -> (r: Result<std::string::String, MarshalError>) {
        match stack.pop_slot() {
            Option::None => Result::Err(
                MarshalError::TypeMismatch { expected: Tag::Str, found: None },
            ),
            Option::Some(Slot::Str(b)) => match scan_text(b.as_slice()) {
                Option::None => match bytes_as_str(b.as_slice()) {
                    Option::Some(s) => Result::Ok(s.to_owned()),
                    Option::None => {
                        proof {
                            assert(false);
                        }
                        Result::Err(MarshalError::Decode { offset: 0 })
                    },
                },
                Option::Some(off) => Result::Err(MarshalError::Decode { offset: off }),
            },
            Option::Some(s) => Result::Err(
                MarshalError::TypeMismatch { expected: Tag::Str, found: Some(slot_tag(&s)) },
            ),
        }
    }
}

impl<T: Pushable> Pushable for Option<T> {
    /// An absent value encodes as one `Nil` slot; a present value encodes
    /// as its payload does.
    open spec fn encodable(&self) -> bool {
        match self {
            Option::None => true,
            Option::Some(t) => t.encodable(),
        }
    }

    open spec fn encoded(&self) -> Seq<SlotView> {
        match self {
            Option::None => seq![SlotView::Nil],
            Option::Some(t) => t.encoded(),
        }
    }

    open spec fn encode_fault(&self) -> MarshalError {
        match self {
            Option::None => arbitrary(),
            Option::Some(t) => t.encode_fault(),
        }
    }

    fn push(self, stack: &mut Stack) -> (r: Result<usize, MarshalError>) {
        match self {
            Option::None => {
                stack.push_slot(Slot::Nil);
                proof {
                    assert(stack@ =~= old(stack)@ + seq![SlotView::Nil]);
                }
                Ok(1)
            },
            Option::Some(t) => t.push(stack),
        }
    }
}

impl<T: Poppable> Poppable for Option<T> {
    open spec fn decodable(v: SlotView) -> bool {
        v is Nil || T::decodable(v)
    }

    open spec fn decodes_to(v: SlotView, x: Option<T>) -> bool {
        match x {
            Option::None => v is Nil,
            Option::Some(t) => !(v is Nil) && T::decodes_to(v, t),
        }
    }

    open spec fn decode_fault(v: SlotView) -> MarshalError {
        T::decode_fault(v)
    }

    open spec fn wanted_tag() -> Tag {
        T::wanted_tag()
    }

    fn expected_tag() -> (t: Tag) {
        T::expected_tag()
    }

    /// A `Nil` slot decodes to `None`; any other slot decodes as the
    /// payload type does.
    fn pop(stack: &mut Stack) -> (r: Result<Option<T>, MarshalError>) {
        match stack.pop_slot() {
            Option::None => Result::Err(
                MarshalError::TypeMismatch { expected: T::expected_tag(), found: None },
            ),
            Option::Some(Slot::Nil) => Result::Ok(Option::None),
            Option::Some(s) => {
                stack.push_slot(s);
                proof {
                    assert(stack@ =~= old(stack)@);
                }
                match T::pop(stack) {
                    Result::Ok(t) => Result::Ok(Option::Some(t)),
                    Result::Err(e) => Result::Err(e),
                }
            },
        }
    }
}

/// The slots a sequence of values encodes to, in order, first value
/// bottom-most.
pub open spec fn encoded_items<T: Pushable>(items: Seq<T>) -> Seq<SlotView>
    decreases items.len(),
{
    if items.len() == 0 {
        Seq::<SlotView>::empty()
    } else {
        items[0].encoded() + encoded_items(items.drop_first())
    }
}

/// The fault of the first element of `items` that cannot be encoded.
pub open spec fn first_encode_fault<T: Pushable>(items: Seq<T>) -> MarshalError
    decreases items.len(),
{
    if items.len() == 0 {
        arbitrary()
    } else if !items[0].encodable() {
        items[0].encode_fault()
    } else {
        first_encode_fault(items.drop_first())
    }
}

proof fn lemma_encoded_items_concat<T: Pushable>(a: Seq<T>, b: Seq<T>)
    ensures
        encoded_items(a + b) == encoded_items(a) + encoded_items(b),
    decreases a.len(),
{
    if a.len() == 0 {
        assert(a + b =~= b);
        assert(encoded_items(a) + encoded_items(b) =~= encoded_items(b));
    } else {
        assert((a + b).drop_first() =~= a.drop_first() + b);
        assert((a + b)[0] == a[0]);
        assert((a + b).len() != 0);
        lemma_encoded_items_concat(a.drop_first(), b);
        assert(a[0].encoded() + (encoded_items(a.drop_first()) + encoded_items(b)) =~= (
        a[0].encoded() + encoded_items(a.drop_first())) + encoded_items(b));
    }
}

proof fn lemma_encoded_items_snoc<T: Pushable>(items: Seq<T>, j: int)
    requires
        0 <= j < items.len(),
    ensures
        encoded_items(items.take(j + 1)) == encoded_items(items.take(j)) + items[j].encoded(),
{
    let one = items.subrange(j, j + 1);
    assert(items.take(j + 1) =~= items.take(j) + one);
    lemma_encoded_items_concat(items.take(j), one);
    assert(one.len() == 1 && one[0] == items[j]);
    assert(one.drop_first() =~= Seq::<T>::empty());
    assert(encoded_items(Seq::<T>::empty()) =~= Seq::<SlotView>::empty());
    assert(encoded_items(one) =~= items[j].encoded());
}

proof fn lemma_first_fault_at<T: Pushable>(items: Seq<T>, j: int)
    requires
        0 <= j < items.len(),
        forall|i: int| 0 <= i < j ==> items[i].encodable(),
        !items[j].encodable(),
    ensures
        first_encode_fault(items) == items[j].encode_fault(),
    decreases j,
{
    if j == 0 {
    } else {
        assert(items[0].encodable());
        assert(items.drop_first()[j - 1] == items[j]);
        assert(forall|i: int| 0 <= i < j - 1 ==> items.drop_first()[i] == items[i + 1]);
        lemma_first_fault_at(items.drop_first(), j - 1);
    }
}

impl<T: Pushable> Pushable for Vec<T> {
    /// A sequence encodes element by element, in order; it is encodable
    /// exactly when every element is.
    open spec fn encodable(&self) -> bool {
        forall|j: int| 0 <= j < self@.len() ==> self@[j].encodable()
    }

    open spec fn encoded(&self) -> Seq<SlotView> {
        encoded_items(self@)
    }

    open spec fn encode_fault(&self) -> MarshalError {
        first_encode_fault(self@)
    }

    /// Pushes the elements first to last; the first element that fails to
    /// encode aborts the push, and the slots of the elements already
    /// pushed are unwound so the stack depth is exactly restored.
    #[verifier::loop_isolation(false)]
    fn push(self, stack: &mut Stack) -> (r: Result<usize, MarshalError>) {
        let ghost items = self@;
        let entry = stack.depth();
        let mut v = self;
        proof {
            assert(items.take(0) =~= Seq::<T>::empty());
            assert(v@ =~= items.skip(0));
        }
        while v.len() > 0
            invariant
                v@.len() <= items.len(),
                v@ == items.skip(items.len() - v@.len()),
                forall|i: int| 0 <= i < items.len() - v@.len() ==> items[i].encodable(),
                entry == old(stack)@.len(),
                stack@ == old(stack)@ + encoded_items(
                    items.take(items.len() - v@.len()),
                ),
            decreases v@.len(),
        {
            let ghost j = items.len() - v@.len();
            let t = v.remove(0);
            proof {
                assert(t == items[j]);
                assert(v@ =~= items.skip(j + 1));
            }
            match t.push(stack) {
                Result::Ok(_) => {
                    proof {
                        lemma_encoded_items_snoc(items, j);
                    }
                },
                Result::Err(e) => {
                    stack.truncate(entry);
                    proof {
                        assert(0 <= j < items.len() && !items[j].encodable());
                        assert(stack@ =~= old(stack)@);
                        lemma_first_fault_at(items, j);
                    }
                    return Result::Err(e);
                },
            }
        }
        proof {
            assert(items.take(items.len() as int) =~= items);
        }
        let n = stack.depth() - entry;
        Ok(n)
    }
}

/// Interpreter-visible error object: a stable error-kind tag and a
/// human-readable message, so interpreter-side code can catch, inspect
/// and display a native failure.
pub struct ErrorObject {
    /// Stable kind tag, as from [`MarshalError::kind_tag`].
    pub kind: u8,
    /// Message text.
    pub message: NvimString,
}

impl MarshalError {
    /// Converts the native error into its interpreter-visible form,
    /// preserving the kind tag and the message.
    pub fn to_error_object(&self) -> (r: ErrorObject)
        ensures
            r.kind == self.spec_kind_tag(),
            r.message@ == encode_utf8(self.spec_message()),
    {
        let m = self.message();
        ErrorObject { kind: self.kind_tag(), message: NvimString::from_bytes(m.as_bytes_vec()) }
    }
}

impl Pushable for ErrorObject {
    open spec fn encodable(&self) -> bool {
        true
    }

    /// An error object occupies two slots: the kind tag below, the
    /// message on top.
    open spec fn encoded(&self) -> Seq<SlotView> {
        seq![SlotView::Int(self.kind as i64), SlotView::Str(self.message@)]
    }

    open spec fn encode_fault(&self) -> MarshalError {
        arbitrary()
    }

    fn push(self, stack: &mut Stack) -> (r: Result<usize, MarshalError>) {
        let ghost msg = self.message@;
        stack.push_slot(Slot::Int(self.kind as i64));
        stack.push_slot(Slot::Str(self.message.into_bytes()));
        proof {
            assert(stack@ =~= old(stack)@ + seq![
                SlotView::Int(self.kind as i64),
                SlotView::Str(msg),
            ]);
        }
        Ok(2)
    }
}

/// Round trip for booleans: whatever a pushed boolean's slot decodes to
/// is the pushed value.
pub proof fn lemma_round_trip_bool(x: bool, y: bool)
    ensures
        x.encodable(),
        x.encoded().len() == 1,
        <bool as Poppable>::decodable(x.encoded().last()),
        <bool as Poppable>::decodes_to(x.encoded().last(), y) ==> y == x,
{
}

/// Round trip for integers: whatever a pushed integer's slot decodes to
/// is the pushed value.
pub proof fn lemma_round_trip_int(x: i64, y: i64)
    ensures
        x.encodable(),
        x.encoded().len() == 1,
        <i64 as Poppable>::decodable(x.encoded().last()),
        <i64 as Poppable>::decodes_to(x.encoded().last(), y) ==> y == x,
{
}

/// Round trip for byte strings: whatever a pushed string's slot decodes
/// to carries exactly the pushed bytes, embedded zero bytes included.
pub proof fn lemma_round_trip_buffer(x: NvimString, y: NvimString)
    ensures
        x.encodable(),
        x.encoded().len() == 1,
        <NvimString as Poppable>::decodable(x.encoded().last()),
        <NvimString as Poppable>::decodes_to(x.encoded().last(), y) ==> y@ == x@,
{
}

/// Round trip for owned text: when the text is encodable (strict text),
/// whatever its slot decodes to is character-for-character the original.
pub proof fn lemma_round_trip_string(x: std::string::String, y: std::string::String)
    requires
        x.encodable(),
    ensures
        x.encoded().len() == 1,
        <std::string::String as Poppable>::decodable(x.encoded().last()),
        <std::string::String as Poppable>::decodes_to(x.encoded().last(), y) ==> y@ == x@,
{
    if <std::string::String as Poppable>::decodes_to(x.encoded().last(), y) {
        encode_utf8_decode_utf8(x@);
        encode_utf8_decode_utf8(y@);
    }
}

} // verus!
