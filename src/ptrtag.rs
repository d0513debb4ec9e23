//! A one-word encoding of nil, integers, symbols and lists. The low bits of
//! the word are a tag that names the kind; the bits above hold the payload.
use vstd::prelude::*;
use crate::list::List;
use crate::reader::TokenModel;
use crate::symcache::Symbol;

verus! {

/// The kinds a tagged word can hold.
#[derive(Debug, Clone, Copy, PartialEq, Eq, Structural)]
pub enum TypeTag {
    NIL,
    Integer,
    Symbol,
    List,
}

impl TypeTag {
    /// How many low bits the tag takes.
    pub open spec fn spec_shift(self) -> u64 {
        match self {
            TypeTag::NIL => 0,
            TypeTag::Integer => 1,
            TypeTag::Symbol | TypeTag::List => 8,
        }
    }

    /// The tag's bits: nil `0`, integer `1`, symbol `10`, list `110`.
    pub open spec fn spec_bits(self) -> u64 {
        match self {
            TypeTag::NIL => 0,
            TypeTag::Integer => 1,
            TypeTag::Symbol => 2,
            TypeTag::List => 6,
        }
    }

    pub open spec fn spec_mask(self) -> u64 {
        match self {
            TypeTag::NIL => 0,
            TypeTag::Integer => 1,
            TypeTag::Symbol | TypeTag::List => 0xff,
        }
    }

    /// Whether the low bits of `w` carry this tag.
    pub open spec fn spec_is_tagged(self, w: u64) -> bool {
        w & self.spec_mask() == self.spec_bits()
    }

    /// `n` shifted above the tag, with the tag's bits set below it.
    pub open spec fn spec_tag(self, n: u64) -> u64 {
        (n << self.spec_shift()) | self.spec_bits()
    }

    fn shift(&self) -> (r: u64)
        ensures
            r == self.spec_shift(),
    {
        match self {
            TypeTag::NIL => 0,
            TypeTag::Integer => 1,
            TypeTag::Symbol | TypeTag::List => 8,
        }
    }

    fn bits(&self) -> (r: u64)
        ensures
            r == self.spec_bits(),
    {
        match self {
            TypeTag::NIL => 0,
            TypeTag::Integer => 1,
            TypeTag::Symbol => 2,
            TypeTag::List => 6,
        }
    }

    fn mask(&self) -> (r: u64)
        ensures
            r == self.spec_mask(),
    {
        let s = self.shift();
        assert(s == 0 ==> (1u64 << s) - 1 == 0) by (bit_vector);
        assert(s == 1 ==> (1u64 << s) - 1 == 1) by (bit_vector);
        assert(s == 8 ==> (1u64 << s) - 1 == 0xff) by (bit_vector);
        (1u64 << s) - 1
    }

    fn is_tagged(&self, n: u64) -> (r: bool)
        ensures
            r == self.spec_is_tagged(n),
    {
        (n & self.mask()) == self.bits()
    }

    fn tag(&self, n: u64) -> (r: u64)
        ensures
            r == self.spec_tag(n),
    {
        (n << self.shift()) | self.bits()
    }

    fn untag(&self, n: u64) -> (r: u64)
        ensures
            r == n >> self.spec_shift(),
    {
        n >> self.shift()
    }
}

/// The word that encodes integer `x`.
pub open spec fn int_word(x: i64) -> u64 {
    TypeTag::Integer.spec_tag(x as u64)
}

/// The integer that an integer-tagged word decodes to: bits 1 to 63 of `w`,
/// with the top bit of `w` repeated as the sign.
pub open spec fn word_int(w: u64) -> i64 {
    if w >> 63u64 == 1 {
        #[verifier::truncate] (((w >> 1u64) | 0x8000_0000_0000_0000u64) as i64)
    } else {
        (w >> 1u64) as i64
    }
}

/// The word that encodes the symbol with identifier `id`.
pub open spec fn symbol_word(id: nat) -> u64 {
    TypeTag::Symbol.spec_tag(id as u64)
}

/// The word that marks an owned list.
pub open spec fn list_word() -> u64 {
    TypeTag::List.spec_tag(0)
}

/// What a [`TaggedPtr`] holds: its word and, for a list, the list beside it.
pub struct TaggedView {
    pub word: u64,
    pub list: Option<Seq<TokenModel>>,
}

pub open spec fn decode_int(v: TaggedView) -> Option<i64> {
    if TypeTag::Integer.spec_is_tagged(v.word) {
        Some(word_int(v.word))
    } else {
        None
    }
}

pub open spec fn decode_symbol(v: TaggedView) -> Option<nat> {
    if TypeTag::Symbol.spec_is_tagged(v.word) {
        Some(((v.word >> 8u64) as usize) as nat)
    } else {
        None
    }
}

pub open spec fn decode_list(v: TaggedView) -> Option<Seq<TokenModel>> {
    if TypeTag::List.spec_is_tagged(v.word) {
        v.list
    } else {
        None
    }
}

/// A value in one word. A list is owned by the value that encodes it, and
/// decoding it gives the ownership back, so a list is decoded at most once.
#[derive(Debug)]
pub struct TaggedPtr {
    word: u64,
    list: Option<Box<List>>,
}

impl View for TaggedPtr {
    type V = TaggedView;

    closed spec fn view(&self) -> TaggedView {
        TaggedView {
            word: self.word,
            list: match self.list {
                Some(b) => Some(b@),
                None => None,
            },
        }
    }
}

impl TaggedPtr {
    /// Encodes `payload` under a tag that carries no heap block; nil is the
    /// all-zero word.
    fn new(payload: u64, tag: TypeTag) -> (r: TaggedPtr)
        requires
            tag != TypeTag::List,
        ensures
            r@.word == (if tag == TypeTag::NIL {
                0
            } else {
                tag.spec_tag(payload)
            }),
            r@.list is None,
    {
        match tag {
            TypeTag::NIL => TaggedPtr { word: 0, list: None },
            _ => TaggedPtr { word: tag.tag(payload), list: None },
        }
    }

    /// The nil value.
    pub fn nil() -> (r: TaggedPtr)
        ensures
            r@ == (TaggedView { word: 0, list: None }),
    {
        TaggedPtr::new(0, TypeTag::NIL)
    }

    /// The encoded word.
    pub fn value(&self) -> (r: u64)
        ensures
            r == self@.word,
    {
        self.word
    }

    pub fn from_int(n: i64) -> (r: TaggedPtr)
        ensures
            r@ == (TaggedView { word: int_word(n), list: None }),
    {
        TaggedPtr::new(n as u64, TypeTag::Integer)
    }

    /// The integer this value encodes, or `None` if it is not an integer.
    pub fn as_int(self) -> (r: Option<i64>)
        ensures
            r == decode_int(self@),
    {
        if !TypeTag::Integer.is_tagged(self.word) {
            return None;
        }
        let w = self.word;
        let msb = w & (1u64 << 63u64);
        let num = TypeTag::Integer.untag(w);
        assert(msb != 0 <==> w >> 63u64 == 1) by (bit_vector)
            requires
                msb == w & (1u64 << 63u64),
        ;
        assert(w >> 63u64 != 1 ==> w >> 1u64 <= i64::MAX) by (bit_vector);
        assert(1u64 << 63u64 == 0x8000_0000_0000_0000u64) by (bit_vector);
        if msb != 0 {
            Some(#[verifier::truncate] ((num | (1u64 << 63u64)) as i64))
        } else {
            Some(num as i64)
        }
    }

    pub fn from_sym(s: Symbol) -> (r: TaggedPtr)
        ensures
            r@ == (TaggedView { word: symbol_word(s@), list: None }),
    {
        let n = s.value();
        TaggedPtr::new(n as u64, TypeTag::Symbol)
    }

    /// The symbol this value encodes, or `None` if it is not a symbol.
    pub fn as_sym(self) -> (r: Option<Symbol>)
        ensures
            r is Some <==> decode_symbol(self@) is Some,
            r matches Some(s) ==> decode_symbol(self@) == Some(s@),
    {
        if !TypeTag::Symbol.is_tagged(self.word) {
            None
        } else {
            let n = TypeTag::Symbol.untag(self.word);
            Some(Symbol::new(n as usize))
        }
    }

    /// Takes ownership of `lst`.
    pub fn from_list(lst: Box<List>) -> (r: TaggedPtr)
        ensures
            r@ == (TaggedView { word: list_word(), list: Some(lst@) }),
    {
        TaggedPtr { word: TypeTag::List.tag(0), list: Some(lst) }
    }

    /// Hands back the list this value owns, or `None` if it is not a list.
    pub fn as_list(self) -> (r: Option<Box<List>>)
        ensures
            r is Some <==> decode_list(self@) is Some,
            r matches Some(l) ==> decode_list(self@) == Some(l@),
    {
        if !TypeTag::List.is_tagged(self.word) {
            None
        } else {
            self.list
        }
    }
}

/// An integer whose value fits in 63 bits decodes to itself.
pub proof fn lemma_int_round_trip(x: i64)
    requires
        -0x4000_0000_0000_0000 <= x < 0x4000_0000_0000_0000,
    ensures
        decode_int(TaggedView { word: int_word(x), list: None }) == Some(x),
{
    assert(int_word(x) & 1u64 == 1u64) by (bit_vector);
    assert(word_int(int_word(x)) == x) by (bit_vector)
        requires
            -0x4000_0000_0000_0000 <= x < 0x4000_0000_0000_0000,
    ;
}

/// An integer that needs all 64 bits loses its top bit: it decodes to a
/// value 2^63 away from itself.
pub proof fn lemma_int_wide(x: i64)
    requires
        x < -0x4000_0000_0000_0000 || 0x4000_0000_0000_0000 <= x,
    ensures
        decode_int(TaggedView { word: int_word(x), list: None }) == Some(
            (if x < 0 {
                x + 0x8000_0000_0000_0000
            } else {
                x - 0x8000_0000_0000_0000
            }) as i64,
        ),
{
    assert(int_word(x) & 1u64 == 1u64) by (bit_vector);
    assert(x < 0 ==> word_int(int_word(x)) == x + 0x8000_0000_0000_0000) by (bit_vector)
        requires
            x < -0x4000_0000_0000_0000 || 0x4000_0000_0000_0000 <= x,
    ;
    assert(x >= 0 ==> word_int(int_word(x)) == x - 0x8000_0000_0000_0000) by (bit_vector)
        requires
            x < -0x4000_0000_0000_0000 || 0x4000_0000_0000_0000 <= x,
    ;
}

/// A symbol whose identifier fits in the 56 bits above the tag decodes to
/// itself.
pub proof fn lemma_symbol_round_trip(id: nat)
    requires
        id <= usize::MAX,
        id < 0x100_0000_0000_0000,
    ensures
        decode_symbol(TaggedView { word: symbol_word(id), list: None }) == Some(id),
{
    let n = id as usize;
    assert(TypeTag::Symbol.spec_is_tagged(symbol_word(n as nat))) by (bit_vector);
    assert((symbol_word(n as nat) >> 8u64) as usize == n) by (bit_vector)
        requires
            n < 0x100_0000_0000_0000,
    ;
}

/// A word of one kind decodes as no other kind.
pub proof fn lemma_kinds_exclusive(x: i64, id: nat, l: Seq<TokenModel>)
    ensures
        decode_symbol(TaggedView { word: int_word(x), list: None }) is None,
        decode_list(TaggedView { word: int_word(x), list: None }) is None,
        decode_int(TaggedView { word: symbol_word(id), list: None }) is None,
        decode_list(TaggedView { word: symbol_word(id), list: None }) is None,
        decode_int(TaggedView { word: list_word(), list: Some(l) }) is None,
        decode_symbol(TaggedView { word: list_word(), list: Some(l) }) is None,
{
    let n = id as u64;
    assert(!TypeTag::Symbol.spec_is_tagged(int_word(x))) by (bit_vector);
    assert(!TypeTag::List.spec_is_tagged(int_word(x))) by (bit_vector);
    assert(!TypeTag::Integer.spec_is_tagged(TypeTag::Symbol.spec_tag(n))) by (bit_vector);
    assert(!TypeTag::List.spec_is_tagged(TypeTag::Symbol.spec_tag(n))) by (bit_vector);
    assert(!TypeTag::Integer.spec_is_tagged(list_word())) by (bit_vector);
    assert(!TypeTag::Symbol.spec_is_tagged(list_word())) by (bit_vector);
}

/// A list handed to a tagged value comes back whole when it is decoded.
pub proof fn lemma_list_round_trip(l: Seq<TokenModel>)
    ensures
        decode_list(TaggedView { word: list_word(), list: Some(l) }) == Some(l),
{
    assert(TypeTag::List.spec_is_tagged(list_word())) by (bit_vector);
}

} // verus!
