//! The framing hypotheses: one tagged variant per family, with the limits
//! that each family puts on its parameters.

use vstd::prelude::*;

verus! {

/// The width of a length prefix in bytes.
#[derive(Debug, Clone, Copy, PartialEq, Eq, Hash, Structural)]
pub enum LengthWidth {
    One,
    Two,
    Four,
}

impl LengthWidth {
    /// The number of bytes that the width stands for.
    pub open spec fn bytes(self) -> nat {
        match self {
            LengthWidth::One => 1,
            LengthWidth::Two => 2,
            LengthWidth::Four => 4,
        }
    }

    /// The number of bytes that the width stands for.
    pub fn byte_count(self) -> (n: usize)
        ensures
            n == self.bytes(),
    {
        match self {
            LengthWidth::One => 1,
            LengthWidth::Two => 2,
            LengthWidth::Four => 4,
        }
    }
}

/// The byte order of a multi-byte length prefix.
#[derive(Debug, Clone, Copy, PartialEq, Eq, Hash, Structural)]
pub enum Endianness {
    Little,
    Big,
}

/// How a TLV length is encoded.
#[derive(Debug, Clone, Copy, PartialEq, Eq, Hash, Structural)]
pub enum TlvLenRule {
    /// One byte.
    DefiniteShort,
    /// Two bytes, big-endian.
    DefiniteMedium,
    /// Four bytes, big-endian.
    DefiniteLong,
    /// No length field: the value runs up to two zero bytes.
    IndefiniteWithEoc,
}

impl TlvLenRule {
    /// The size of the length field in bytes.
    pub open spec fn field_bytes(self) -> nat {
        match self {
            TlvLenRule::DefiniteShort => 1,
            TlvLenRule::DefiniteMedium => 2,
            TlvLenRule::DefiniteLong => 4,
            TlvLenRule::IndefiniteWithEoc => 0,
        }
    }

    /// The size of the length field in bytes.
    pub fn field_size(self) -> (n: usize)
        ensures
            n == self.field_bytes(),
    {
        match self {
            TlvLenRule::DefiniteShort => 1,
            TlvLenRule::DefiniteMedium => 2,
            TlvLenRule::DefiniteLong => 4,
            TlvLenRule::IndefiniteWithEoc => 0,
        }
    }
}

/// A hypothesis on how one protocol layer frames its payload.
#[derive(Debug, PartialEq, Eq, Hash)]
pub enum Hypothesis {
    /// Messages bundled behind a length prefix.
    LengthPrefixBundle { offset: usize, width: LengthWidth, endian: Endianness, includes_header: bool },
    /// Messages bundled between occurrences of a byte pattern.
    DelimiterBundle { pattern: Vec<u8> },
    /// A header of fixed length before the payload.
    FixedHeader { len: usize },
    /// A bitmap whose bytes announce their successor by one bit.
    ExtensibleBitmap { start: usize, cont_bit: u8, stop_value: u8, max_bytes: usize },
    /// Tag, length, value.
    Tlv {
        tag_offset: usize,
        tag_bytes: usize,
        len_offset: usize,
        len_rule: TlvLenRule,
        length_includes_header: bool,
    },
    /// Fields behind base-128 keys that carry a wire type.
    VarintKeyWireType { key_max_bytes: usize, allow_embedded: bool },
}

/// The mathematical value of a [`Hypothesis`].
pub enum HypothesisView {
    LengthPrefixBundle { offset: nat, width: LengthWidth, endian: Endianness, includes_header: bool },
    DelimiterBundle { pattern: Seq<u8> },
    FixedHeader { len: nat },
    ExtensibleBitmap { start: nat, cont_bit: u8, stop_value: u8, max_bytes: nat },
    Tlv {
        tag_offset: nat,
        tag_bytes: nat,
        len_offset: nat,
        len_rule: TlvLenRule,
        length_includes_header: bool,
    },
    VarintKeyWireType { key_max_bytes: nat, allow_embedded: bool },
}

impl HypothesisView {
    /// The limits of each family: a delimiter and a fixed header are not
    /// empty, the continuation bit is one of a byte's eight, the stop value
    /// is a bit, a tag has one to three bytes and the length field stands
    /// behind it, and a key has at least one byte.
    pub open spec fn wf(self) -> bool {
        match self {
            HypothesisView::LengthPrefixBundle { .. } => true,
            HypothesisView::DelimiterBundle { pattern } => pattern.len() >= 1,
            HypothesisView::FixedHeader { len } => len >= 1,
            HypothesisView::ExtensibleBitmap { cont_bit, stop_value, .. } => cont_bit < 8
                && stop_value <= 1,
            HypothesisView::Tlv { tag_offset, tag_bytes, len_offset, .. } => 1 <= tag_bytes <= 3
                && len_offset >= tag_offset + tag_bytes,
            HypothesisView::VarintKeyWireType { key_max_bytes, .. } => key_max_bytes >= 1,
        }
    }

    /// The family's name.
    pub open spec fn name(self) -> Seq<char> {
        match self {
            HypothesisView::LengthPrefixBundle { .. } => "LengthPrefixBundle"@,
            HypothesisView::DelimiterBundle { .. } => "DelimiterBundle"@,
            HypothesisView::FixedHeader { .. } => "FixedHeader"@,
            HypothesisView::ExtensibleBitmap { .. } => "ExtensibleBitmap"@,
            HypothesisView::Tlv { .. } => "TLV"@,
            HypothesisView::VarintKeyWireType { .. } => "VarintKeyWireType"@,
        }
    }
}

impl View for Hypothesis {
    type V = HypothesisView;

    open spec fn view(&self) -> HypothesisView {
        match *self {
            Hypothesis::LengthPrefixBundle { offset, width, endian, includes_header } => {
                HypothesisView::LengthPrefixBundle {
                    offset: offset as nat,
                    width,
                    endian,
                    includes_header,
                }
            },
            Hypothesis::DelimiterBundle { pattern } => HypothesisView::DelimiterBundle {
                pattern: pattern@,
            },
            Hypothesis::FixedHeader { len } => HypothesisView::FixedHeader { len: len as nat },
            Hypothesis::ExtensibleBitmap { start, cont_bit, stop_value, max_bytes } => {
                HypothesisView::ExtensibleBitmap {
                    start: start as nat,
                    cont_bit,
                    stop_value,
                    max_bytes: max_bytes as nat,
                }
            },
            Hypothesis::Tlv { tag_offset, tag_bytes, len_offset, len_rule, length_includes_header } => {
                HypothesisView::Tlv {
                    tag_offset: tag_offset as nat,
                    tag_bytes: tag_bytes as nat,
                    len_offset: len_offset as nat,
                    len_rule,
                    length_includes_header,
                }
            },
            Hypothesis::VarintKeyWireType { key_max_bytes, allow_embedded } => {
                HypothesisView::VarintKeyWireType {
                    key_max_bytes: key_max_bytes as nat,
                    allow_embedded,
                }
            },
        }
    }
}

impl DeepView for Hypothesis {
    type V = HypothesisView;

    open spec fn deep_view(&self) -> HypothesisView {
        self@
    }
}

impl Clone for Hypothesis {
    fn clone(&self) -> (copy: Self)
        ensures
            copy@ == self@,
    {
        match self {
            Hypothesis::LengthPrefixBundle { offset, width, endian, includes_header } => {
                Hypothesis::LengthPrefixBundle {
                    offset: *offset,
                    width: *width,
                    endian: *endian,
                    includes_header: *includes_header,
                }
            },
            Hypothesis::DelimiterBundle { pattern } => Hypothesis::DelimiterBundle {
                pattern: pattern.clone(),
            },
            Hypothesis::FixedHeader { len } => Hypothesis::FixedHeader { len: *len },
            Hypothesis::ExtensibleBitmap { start, cont_bit, stop_value, max_bytes } => {
                Hypothesis::ExtensibleBitmap {
                    start: *start,
                    cont_bit: *cont_bit,
                    stop_value: *stop_value,
                    max_bytes: *max_bytes,
                }
            },
            Hypothesis::Tlv { tag_offset, tag_bytes, len_offset, len_rule, length_includes_header } => {
                Hypothesis::Tlv {
                    tag_offset: *tag_offset,
                    tag_bytes: *tag_bytes,
                    len_offset: *len_offset,
                    len_rule: *len_rule,
                    length_includes_header: *length_includes_header,
                }
            },
            Hypothesis::VarintKeyWireType { key_max_bytes, allow_embedded } => {
                Hypothesis::VarintKeyWireType {
                    key_max_bytes: *key_max_bytes,
                    allow_embedded: *allow_embedded,
                }
            },
        }
    }
}

impl Hypothesis {
    /// The family's name.
    pub fn name(&self) -> (name: &'static str)
        ensures
            name@ == self@.name(),
    {
        match self {
            Hypothesis::LengthPrefixBundle { .. } => "LengthPrefixBundle",
            Hypothesis::DelimiterBundle { .. } => "DelimiterBundle",
            Hypothesis::FixedHeader { .. } => "FixedHeader",
            Hypothesis::ExtensibleBitmap { .. } => "ExtensibleBitmap",
            Hypothesis::Tlv { .. } => "TLV",
            Hypothesis::VarintKeyWireType { .. } => "VarintKeyWireType",
        }
    }

    /// Whether the parameters keep the limits of their family.
    pub fn is_valid(&self) -> (valid: bool)
        ensures
            valid == self@.wf(),
    {
        match self {
            Hypothesis::LengthPrefixBundle { .. } => true,
            Hypothesis::DelimiterBundle { pattern } => pattern.len() >= 1,
            Hypothesis::FixedHeader { len } => *len >= 1,
            Hypothesis::ExtensibleBitmap { cont_bit, stop_value, .. } => *cont_bit < 8
                && *stop_value <= 1,
            Hypothesis::Tlv { tag_offset, tag_bytes, len_offset, .. } => {
                1 <= *tag_bytes && *tag_bytes <= 3 && *len_offset >= *tag_bytes && *len_offset
                    - *tag_bytes >= *tag_offset
            },
            Hypothesis::VarintKeyWireType { key_max_bytes, .. } => *key_max_bytes >= 1,
        }
    }
}

} // verus!
