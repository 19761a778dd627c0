//! Decoder for the JVM class-file format: constant pool, fields, methods and
//! nested attributes.
//!
//! The byte-level layout is specified by the `spec_parse_*` functions, which
//! read the same big-endian stream mathematically; every exec reader is
//! proved to return exactly what its spec-level counterpart describes.

use vstd::prelude::*;

use crate::byte_array::ByteArray;
use crate::byte_array::be_u16_at;
use crate::byte_array::be_u32_at;
use crate::descriptor_parser::lemma_tokens_wf;
use crate::descriptor_parser::parse_descriptor;
use crate::descriptor_parser::spec_parse_descriptor;
use crate::descriptor_parser::spec_wf_token;
use crate::error::ConstantKind;
use crate::error::DecodeError;

verus! {

broadcast use vstd::std_specs::vec::group_vec_axioms;

pub const MAGIC_NUMBER: u32 = 0xCAFEBABE;

pub const CT_UTF8: u8 = 1;
pub const CT_INTEGER: u8 = 3;
pub const CT_FLOAT: u8 = 4;
pub const CT_LONG: u8 = 5;
pub const CT_DOUBLE: u8 = 6;
pub const CT_CLASS: u8 = 7;
pub const CT_STRING: u8 = 8;
pub const CT_FIELDREF: u8 = 9;
pub const CT_METHODREF: u8 = 10;
pub const CT_INTERFACEMETHOD: u8 = 11;
pub const CT_NAMEANDTYPE: u8 = 12;
pub const CT_METHODHANDLE: u8 = 15;
pub const CT_METHODTYPE: u8 = 16;
pub const CT_INVOKEDYNAMIC: u8 = 18;

pub const ACC_PUBLIC: u16 = 0x0001;
pub const ACC_PRIVATE: u16 = 0x0002;
pub const ACC_PROTECTED: u16 = 0x0004;
pub const ACC_STATIC: u16 = 0x0008;
pub const ACC_FINAL: u16 = 0x0010;
pub const ACC_SYNCHRONIZED: u16 = 0x0020;
pub const ACC_BRIDGE: u16 = 0x0040;
pub const ACC_VARARGS: u16 = 0x0080;
pub const ACC_NATIVE: u16 = 0x0100;
pub const ACC_ABSTRACT: u16 = 0x0400;
pub const ACC_STRICT: u16 = 0x0800;
pub const ACC_SYNTHETIC: u16 = 0x1000;

/// The mask of flag bits that `MethodFlags` models.
pub const ACC_KNOWN_MASK: u16 = 0x1DFF;

/// A named set of method access-flag bits.
#[derive(Debug, Clone, Copy, PartialEq, Eq, Structural)]
pub struct MethodFlags {
    pub bits: u16,
}

/// The keyword that a single flag value renders as.
pub open spec fn spec_keyword(bits: u16) -> Seq<char> {
    if bits == ACC_PUBLIC {
        "public"@
    } else if bits == ACC_PRIVATE {
        "private"@
    } else if bits == ACC_PROTECTED {
        "protected"@
    } else if bits == ACC_STATIC {
        "static"@
    } else if bits == ACC_FINAL {
        "final"@
    } else if bits == ACC_SYNCHRONIZED {
        "synchronized"@
    } else if bits == ACC_BRIDGE {
        "bridge"@
    } else if bits == ACC_VARARGS {
        "varargs"@
    } else if bits == ACC_NATIVE {
        "native"@
    } else if bits == ACC_ABSTRACT {
        "abstract"@
    } else if bits == ACC_STRICT {
        "strict"@
    } else if bits == ACC_SYNTHETIC {
        "SYNTHETIC"@
    } else {
        "unknown"@
    }
}

/// One row of the flag listing: present exactly when `flag` is set in
/// `bits`.
pub open spec fn spec_flag_row(bits: u16, flag: u16, name: Seq<char>) -> Seq<(Seq<char>, u16)> {
    if bits & flag != 0 {
        seq![(name, flag)]
    } else {
        Seq::empty()
    }
}

/// The number of modeled flags.
pub const FLAG_COUNT: usize = 12;

/// The `i`-th modeled flag, in declaration order.
pub open spec fn spec_nth_flag(i: int) -> u16 {
    if i == 0 {
        ACC_PUBLIC
    } else if i == 1 {
        ACC_PRIVATE
    } else if i == 2 {
        ACC_PROTECTED
    } else if i == 3 {
        ACC_STATIC
    } else if i == 4 {
        ACC_FINAL
    } else if i == 5 {
        ACC_SYNCHRONIZED
    } else if i == 6 {
        ACC_BRIDGE
    } else if i == 7 {
        ACC_VARARGS
    } else if i == 8 {
        ACC_NATIVE
    } else if i == 9 {
        ACC_ABSTRACT
    } else if i == 10 {
        ACC_STRICT
    } else {
        ACC_SYNTHETIC
    }
}

/// The declared name of a single flag value.
pub open spec fn spec_flag_name(flag: u16) -> Seq<char> {
    if flag == ACC_PUBLIC {
        "ACC_PUBLIC"@
    } else if flag == ACC_PRIVATE {
        "ACC_PRIVATE"@
    } else if flag == ACC_PROTECTED {
        "ACC_PROTECTED"@
    } else if flag == ACC_STATIC {
        "ACC_STATIC"@
    } else if flag == ACC_FINAL {
        "ACC_FINAL"@
    } else if flag == ACC_SYNCHRONIZED {
        "ACC_SYNCHRONIZED"@
    } else if flag == ACC_BRIDGE {
        "ACC_BRIDGE"@
    } else if flag == ACC_VARARGS {
        "ACC_VARARGS"@
    } else if flag == ACC_NATIVE {
        "ACC_NATIVE"@
    } else if flag == ACC_ABSTRACT {
        "ACC_ABSTRACT"@
    } else if flag == ACC_STRICT {
        "ACC_STRICT"@
    } else if flag == ACC_SYNTHETIC {
        "ACC_SYNTHETIC"@
    } else {
        "unknown"@
    }
}

/// The rows for the flags from position `i` on that are set in `bits`.
pub open spec fn spec_flag_rows_from(bits: u16, i: int) -> Seq<(Seq<char>, u16)>
    decreases FLAG_COUNT - i,
{
    if 0 <= i < FLAG_COUNT {
        spec_flag_row(bits, spec_nth_flag(i), spec_flag_name(spec_nth_flag(i)))
            + spec_flag_rows_from(bits, i + 1)
    } else {
        Seq::empty()
    }
}

/// The (flag name, single flag value) rows for every flag set in `bits`, in
/// declaration order.
pub open spec fn spec_flag_rows(bits: u16) -> Seq<(Seq<char>, u16)> {
    spec_flag_rows_from(bits, 0)
}

/// The `i`-th modeled flag, in declaration order.
fn nth_flag(i: usize) -> (r: u16)
    requires
        i < FLAG_COUNT,
    ensures
        r == spec_nth_flag(i as int),
{
    if i == 0 {
        ACC_PUBLIC
    } else if i == 1 {
        ACC_PRIVATE
    } else if i == 2 {
        ACC_PROTECTED
    } else if i == 3 {
        ACC_STATIC
    } else if i == 4 {
        ACC_FINAL
    } else if i == 5 {
        ACC_SYNCHRONIZED
    } else if i == 6 {
        ACC_BRIDGE
    } else if i == 7 {
        ACC_VARARGS
    } else if i == 8 {
        ACC_NATIVE
    } else if i == 9 {
        ACC_ABSTRACT
    } else if i == 10 {
        ACC_STRICT
    } else {
        ACC_SYNTHETIC
    }
}

/// The declared name of a single flag value.
fn flag_name(flag: u16) -> (r: &'static str)
    ensures
        r@ == spec_flag_name(flag),
{
    if flag == ACC_PUBLIC {
        "ACC_PUBLIC"
    } else if flag == ACC_PRIVATE {
        "ACC_PRIVATE"
    } else if flag == ACC_PROTECTED {
        "ACC_PROTECTED"
    } else if flag == ACC_STATIC {
        "ACC_STATIC"
    } else if flag == ACC_FINAL {
        "ACC_FINAL"
    } else if flag == ACC_SYNCHRONIZED {
        "ACC_SYNCHRONIZED"
    } else if flag == ACC_BRIDGE {
        "ACC_BRIDGE"
    } else if flag == ACC_VARARGS {
        "ACC_VARARGS"
    } else if flag == ACC_NATIVE {
        "ACC_NATIVE"
    } else if flag == ACC_ABSTRACT {
        "ACC_ABSTRACT"
    } else if flag == ACC_STRICT {
        "ACC_STRICT"
    } else if flag == ACC_SYNTHETIC {
        "ACC_SYNTHETIC"
    } else {
        "unknown"
    }
}

impl MethodFlags {
    /// Keeps the recognized flag bits of `bits` and drops the rest.
    pub fn from_bits_truncate(bits: u16) -> (r: MethodFlags)
        ensures
            r.bits == bits & ACC_KNOWN_MASK,
    {
        MethodFlags { bits: bits & ACC_KNOWN_MASK }
    }

    /// The source-level keyword for a value holding one single flag.
    pub fn as_keyword(&self) -> (r: &'static str)
        ensures
            r@ == spec_keyword(self.bits),
    {
        if self.bits == ACC_PUBLIC {
            "public"
        } else if self.bits == ACC_PRIVATE {
            "private"
        } else if self.bits == ACC_PROTECTED {
            "protected"
        } else if self.bits == ACC_STATIC {
            "static"
        } else if self.bits == ACC_FINAL {
            "final"
        } else if self.bits == ACC_SYNCHRONIZED {
            "synchronized"
        } else if self.bits == ACC_BRIDGE {
            "bridge"
        } else if self.bits == ACC_VARARGS {
            "varargs"
        } else if self.bits == ACC_NATIVE {
            "native"
        } else if self.bits == ACC_ABSTRACT {
            "abstract"
        } else if self.bits == ACC_STRICT {
            "strict"
        } else if self.bits == ACC_SYNTHETIC {
            "SYNTHETIC"
        } else {
            "unknown"
        }
    }

    /// Every flag set in `self`, as (flag name, single-flag value) pairs in
    /// declaration order.
    pub fn iter_names(&self) -> (r: Vec<(&'static str, MethodFlags)>)
        ensures
            r@.map_values(|p: (&'static str, MethodFlags)| (p.0@, p.1.bits)) == spec_flag_rows(
                self.bits,
            ),
    {
        let ghost f = |p: (&'static str, MethodFlags)| (p.0@, p.1.bits);
        let ghost b = self.bits;
        let mut rows: Vec<(&'static str, MethodFlags)> = Vec::new();
        let mut i: usize = 0;
        while i < FLAG_COUNT
            invariant
                i <= FLAG_COUNT,
                b == self.bits,
                f == (|p: (&'static str, MethodFlags)| (p.0@, p.1.bits)),
                spec_flag_rows(b) == rows@.map_values(f) + spec_flag_rows_from(b, i as int),
            decreases FLAG_COUNT - i,
        {
            let flag = nth_flag(i);
            let ghost rows_before = rows@;
            if self.bits & flag != 0 {
                rows.push((flag_name(flag), MethodFlags { bits: flag }));
            }
            proof {
                assert(rows@.map_values(f) =~= rows_before.map_values(f) + spec_flag_row(
                    b,
                    flag,
                    spec_flag_name(flag),
                ));
                assert(rows@.map_values(f) + spec_flag_rows_from(b, i + 1) =~= rows_before
                    .map_values(f) + spec_flag_rows_from(b, i as int));
            }
            i = i + 1;
        }
        rows
    }
}

/// A constant-pool entry of the binary format. Numeric entries keep their
/// raw big-endian payload; Long and Double entries occupy two consecutive
/// pool slots, the second being a filler. Slot 0 is always a filler.
pub enum ConstantPoolItem {
    CPMethodRef { class_index: u16, name_and_type_index: u16 },
    CPClassInfo { name_index: u16 },
    CPUTF8Info { utf8_string: String },
    CPFieldRef { class_index: u16, name_and_type_index: u16 },
    CPStringInfo { string_index: u16 },
    CPNameAndTypeInfo { name_index: u16, descriptor_index: u16 },
    CPInterfaceMethodRef { class_index: u16, name_and_type_index: u16 },
    CPIntegerInfo { raw: u32 },
    CPFloatInfo { raw: u32 },
    CPLongInfo { high_bytes: u32, low_bytes: u32 },
    CPDoubleInfo { high_bytes: u32, low_bytes: u32 },
    CPMethodHandle { reference_kind: u8, reference_index: u16 },
    CPMethodType { descriptor_index: u16 },
    CPInvokeDynamic { bootstrap_method_attr_index: u16, name_and_type_index: u16 },
    CPFiller,
}

/// The mathematical model of a constant-pool entry: the same variants with
/// the UTF8 text as a sequence of characters.
pub enum CpEntry {
    Utf8 { text: Seq<char> },
    Integer { raw: u32 },
    Float { raw: u32 },
    Long { high_bytes: u32, low_bytes: u32 },
    Double { high_bytes: u32, low_bytes: u32 },
    Class { name_index: u16 },
    StringRef { string_index: u16 },
    FieldRef { class_index: u16, name_and_type_index: u16 },
    MethodRef { class_index: u16, name_and_type_index: u16 },
    InterfaceMethodRef { class_index: u16, name_and_type_index: u16 },
    NameAndType { name_index: u16, descriptor_index: u16 },
    MethodHandle { reference_kind: u8, reference_index: u16 },
    MethodType { descriptor_index: u16 },
    InvokeDynamic { bootstrap_method_attr_index: u16, name_and_type_index: u16 },
    Filler,
}

impl View for ConstantPoolItem {
    type V = CpEntry;

    open spec fn view(&self) -> CpEntry {
        match self {
            ConstantPoolItem::CPMethodRef { class_index, name_and_type_index } =>
                CpEntry::MethodRef {
                    class_index: *class_index,
                    name_and_type_index: *name_and_type_index,
                },
            ConstantPoolItem::CPClassInfo { name_index } => CpEntry::Class {
                name_index: *name_index,
            },
            ConstantPoolItem::CPUTF8Info { utf8_string } => CpEntry::Utf8 { text: utf8_string@ },
            ConstantPoolItem::CPFieldRef { class_index, name_and_type_index } => CpEntry::FieldRef {
                class_index: *class_index,
                name_and_type_index: *name_and_type_index,
            },
            ConstantPoolItem::CPStringInfo { string_index } => CpEntry::StringRef {
                string_index: *string_index,
            },
            ConstantPoolItem::CPNameAndTypeInfo { name_index, descriptor_index } =>
                CpEntry::NameAndType {
                    name_index: *name_index,
                    descriptor_index: *descriptor_index,
                },
            ConstantPoolItem::CPInterfaceMethodRef { class_index, name_and_type_index } =>
                CpEntry::InterfaceMethodRef {
                    class_index: *class_index,
                    name_and_type_index: *name_and_type_index,
                },
            ConstantPoolItem::CPIntegerInfo { raw } => CpEntry::Integer { raw: *raw },
            ConstantPoolItem::CPFloatInfo { raw } => CpEntry::Float { raw: *raw },
            ConstantPoolItem::CPLongInfo { high_bytes, low_bytes } => CpEntry::Long {
                high_bytes: *high_bytes,
                low_bytes: *low_bytes,
            },
            ConstantPoolItem::CPDoubleInfo { high_bytes, low_bytes } => CpEntry::Double {
                high_bytes: *high_bytes,
                low_bytes: *low_bytes,
            },
            ConstantPoolItem::CPMethodHandle { reference_kind, reference_index } =>
                CpEntry::MethodHandle {
                    reference_kind: *reference_kind,
                    reference_index: *reference_index,
                },
            ConstantPoolItem::CPMethodType { descriptor_index } => CpEntry::MethodType {
                descriptor_index: *descriptor_index,
            },
            ConstantPoolItem::CPInvokeDynamic { bootstrap_method_attr_index, name_and_type_index }
                => CpEntry::InvokeDynamic {
                bootstrap_method_attr_index: *bootstrap_method_attr_index,
                name_and_type_index: *name_and_type_index,
            },
            ConstantPoolItem::CPFiller => CpEntry::Filler,
        }
    }
}

/// The class file's table of interned literals and symbolic cross-references,
/// 1-indexed; slot 0 holds a filler.
pub struct ConstantPool {
    pub constants: Vec<ConstantPoolItem>,
}

impl View for ConstantPool {
    type V = Seq<CpEntry>;

    open spec fn view(&self) -> Seq<CpEntry> {
        self.constants@.map_values(|it: ConstantPoolItem| it@)
    }
}

/// What looking up the UTF8 text at `index` of a pool model yields.
pub open spec fn spec_pool_string(pool: Seq<CpEntry>, index: u16) -> Result<Seq<char>, DecodeError> {
    if (index as int) < pool.len() {
        match pool[index as int] {
            CpEntry::Utf8 { text } => Ok(text),
            _ => Err(DecodeError::WrongConstantKind { index, expected: ConstantKind::Utf8 }),
        }
    } else {
        Err(DecodeError::WrongConstantKind { index, expected: ConstantKind::Utf8 })
    }
}

impl ConstantPool {
    /// A decoded pool always has the slot-0 filler and at most 0xFFFF
    /// further slots, the range a 16-bit index can address.
    pub open spec fn wf(self) -> bool {
        &&& self@.len() >= 1
        &&& self@[0] is Filler
        &&& self@.len() <= 0x10000
    }

    /// What looking up the UTF8 text at `index` yields.
    pub open spec fn spec_get_string(self, index: u16) -> Result<Seq<char>, DecodeError> {
        spec_pool_string(self@, index)
    }

    /// What looking up the class entry at `index` yields: its name index.
    pub open spec fn spec_get_class_info(self, index: u16) -> Result<u16, DecodeError> {
        if (index as int) < self@.len() {
            match self@[index as int] {
                CpEntry::Class { name_index } => Ok(name_index),
                _ => Err(
                    DecodeError::WrongConstantKind { index, expected: ConstantKind::ClassRef },
                ),
            }
        } else {
            Err(DecodeError::WrongConstantKind { index, expected: ConstantKind::ClassRef })
        }
    }

    /// What looking up the name-and-type entry at `index` yields: its name
    /// index and descriptor index.
    pub open spec fn spec_get_name_and_type(self, index: u16) -> Result<(u16, u16), DecodeError> {
        if (index as int) < self@.len() {
            match self@[index as int] {
                CpEntry::NameAndType { name_index, descriptor_index } => Ok(
                    (name_index, descriptor_index),
                ),
                _ => Err(
                    DecodeError::WrongConstantKind { index, expected: ConstantKind::NameAndType },
                ),
            }
        } else {
            Err(DecodeError::WrongConstantKind { index, expected: ConstantKind::NameAndType })
        }
    }

    /// A symbolic reference (class index, name-and-type index) resolves
    /// through both of its levels of indirection: the class entry to its
    /// UTF8 name, the name-and-type entry to its UTF8 name and descriptor.
    pub open spec fn ref_resolvable(self, class_index: u16, name_and_type_index: u16) -> bool {
        &&& self.spec_get_class_info(class_index) matches Ok(ni) && self.spec_get_string(ni) is Ok
        &&& self.spec_get_name_and_type(name_and_type_index) matches Ok(nt)
            && self.spec_get_string(nt.0) is Ok && self.spec_get_string(nt.1) is Ok
    }

    /// Every cross-reference stored in `e` resolves in this pool to the
    /// variant its reader expects.
    pub open spec fn entry_resolvable(self, e: CpEntry) -> bool {
        match e {
            CpEntry::MethodRef { class_index, name_and_type_index } => self.ref_resolvable(
                class_index,
                name_and_type_index,
            ),
            CpEntry::FieldRef { class_index, name_and_type_index } => self.ref_resolvable(
                class_index,
                name_and_type_index,
            ),
            CpEntry::InterfaceMethodRef { class_index, name_and_type_index } => self
                .ref_resolvable(class_index, name_and_type_index),
            CpEntry::Class { name_index } => self.spec_get_string(name_index) is Ok,
            CpEntry::StringRef { string_index } => self.spec_get_string(string_index) is Ok,
            CpEntry::NameAndType { name_index, descriptor_index } => self.spec_get_string(
                name_index,
            ) is Ok && self.spec_get_string(descriptor_index) is Ok,
            _ => true,
        }
    }

    /// An internally consistent pool: every entry's cross-references
    /// resolve.
    pub open spec fn resolvable(self) -> bool {
        forall|i: int| 0 <= i < self@.len() ==> self.entry_resolvable(#[trigger] self@[i])
    }

    /// The UTF8 text stored at `index`, or the typed mismatch error.
    pub fn get_string(&self, index: u16) -> (r: Result<&String, DecodeError>)
        ensures
            r matches Ok(s) ==> self.spec_get_string(index) == Ok::<Seq<char>, DecodeError>(s@),
            r matches Err(e) ==> self.spec_get_string(index) == Err::<Seq<char>, DecodeError>(e),
    {
        if (index as usize) < self.constants.len() {
            match &self.constants[index as usize] {
                ConstantPoolItem::CPUTF8Info { utf8_string } => Ok(utf8_string),
                _ => Err(DecodeError::WrongConstantKind { index, expected: ConstantKind::Utf8 }),
            }
        } else {
            Err(DecodeError::WrongConstantKind { index, expected: ConstantKind::Utf8 })
        }
    }

    /// The name index of the class entry stored at `index`, or the typed
    /// mismatch error.
    pub fn get_class_info(&self, index: u16) -> (r: Result<u16, DecodeError>)
        ensures
            r == self.spec_get_class_info(index),
    {
        if (index as usize) < self.constants.len() {
            match &self.constants[index as usize] {
                ConstantPoolItem::CPClassInfo { name_index } => Ok(*name_index),
                _ => Err(
                    DecodeError::WrongConstantKind { index, expected: ConstantKind::ClassRef },
                ),
            }
        } else {
            Err(DecodeError::WrongConstantKind { index, expected: ConstantKind::ClassRef })
        }
    }

    /// The name and descriptor indices of the name-and-type entry stored at
    /// `index`, or the typed mismatch error.
    pub fn get_name_and_type(&self, index: u16) -> (r: Result<(u16, u16), DecodeError>)
        ensures
            r == self.spec_get_name_and_type(index),
    {
        if (index as usize) < self.constants.len() {
            match &self.constants[index as usize] {
                ConstantPoolItem::CPNameAndTypeInfo { name_index, descriptor_index } => Ok(
                    (*name_index, *descriptor_index),
                ),
                _ => Err(
                    DecodeError::WrongConstantKind { index, expected: ConstantKind::NameAndType },
                ),
            }
        } else {
            Err(DecodeError::WrongConstantKind { index, expected: ConstantKind::NameAndType })
        }
    }
}

/// Law: slot 0 of a well-formed pool is never a valid lookup target; every
/// kind of lookup at index 0 fails rather than returning data.
pub proof fn lemma_slot_zero_never_resolves(pool: ConstantPool)
    requires
        pool.wf(),
    ensures
        pool.spec_get_string(0) is Err,
        pool.spec_get_class_info(0) is Err,
        pool.spec_get_name_and_type(0) is Err,
{
}

/// What `cesu8::from_java_cesu8` returns: the text decoded from modified
/// UTF-8 bytes, or nothing when the bytes are not valid modified UTF-8. The
/// decoding is a function of the bytes alone.
pub uninterp spec fn modified_utf8_decode(bytes: Seq<u8>) -> Option<Seq<char>>;

/// Relies on cesu8::from_java_cesu8: decodes Java's modified UTF-8 (the
/// class-file string encoding), failing exactly on invalid input.
#[verifier::external_body]
fn decode_modified_utf8(bytes: &[u8]) -> (r: Option<String>)
    ensures
        r matches Some(s) ==> modified_utf8_decode(bytes@) == Some(s@),
        r is None ==> modified_utf8_decode(bytes@) is None,
{
    match cesu8::from_java_cesu8(bytes) {
        Ok(cow) => Some(cow.to_string()),
        Err(_) => None,
    }
}

/// What parsing the body of one pool entry with tag `tag` at `pos` yields:
/// the entry and the position after it, or the exact decode error.
pub open spec fn spec_parse_item(tag: u8, s: Seq<u8>, pos: int) -> Result<
    (CpEntry, int),
    DecodeError,
> {
    if tag == CT_UTF8 {
        if pos + 2 <= s.len() {
            let n = be_u16_at(s, pos) as int;
            if pos + 2 + n <= s.len() {
                match modified_utf8_decode(s.subrange(pos + 2, pos + 2 + n)) {
                    Some(text) => Ok((CpEntry::Utf8 { text }, pos + 2 + n)),
                    None => Err(DecodeError::MalformedUtf8),
                }
            } else {
                Err(DecodeError::TruncatedInput)
            }
        } else {
            Err(DecodeError::TruncatedInput)
        }
    } else if tag == CT_INTEGER {
        if pos + 4 <= s.len() {
            Ok((CpEntry::Integer { raw: be_u32_at(s, pos) }, pos + 4))
        } else {
            Err(DecodeError::TruncatedInput)
        }
    } else if tag == CT_FLOAT {
        if pos + 4 <= s.len() {
            Ok((CpEntry::Float { raw: be_u32_at(s, pos) }, pos + 4))
        } else {
            Err(DecodeError::TruncatedInput)
        }
    } else if tag == CT_LONG {
        if pos + 8 <= s.len() {
            Ok(
                (
                    CpEntry::Long {
                        high_bytes: be_u32_at(s, pos),
                        low_bytes: be_u32_at(s, pos + 4),
                    },
                    pos + 8,
                ),
            )
        } else {
            Err(DecodeError::TruncatedInput)
        }
    } else if tag == CT_DOUBLE {
        if pos + 8 <= s.len() {
            Ok(
                (
                    CpEntry::Double {
                        high_bytes: be_u32_at(s, pos),
                        low_bytes: be_u32_at(s, pos + 4),
                    },
                    pos + 8,
                ),
            )
        } else {
            Err(DecodeError::TruncatedInput)
        }
    } else if tag == CT_CLASS {
        if pos + 2 <= s.len() {
            Ok((CpEntry::Class { name_index: be_u16_at(s, pos) }, pos + 2))
        } else {
            Err(DecodeError::TruncatedInput)
        }
    } else if tag == CT_STRING {
        if pos + 2 <= s.len() {
            Ok((CpEntry::StringRef { string_index: be_u16_at(s, pos) }, pos + 2))
        } else {
            Err(DecodeError::TruncatedInput)
        }
    } else if tag == CT_FIELDREF {
        if pos + 4 <= s.len() {
            Ok(
                (
                    CpEntry::FieldRef {
                        class_index: be_u16_at(s, pos),
                        name_and_type_index: be_u16_at(s, pos + 2),
                    },
                    pos + 4,
                ),
            )
        } else {
            Err(DecodeError::TruncatedInput)
        }
    } else if tag == CT_METHODREF {
        if pos + 4 <= s.len() {
            Ok(
                (
                    CpEntry::MethodRef {
                        class_index: be_u16_at(s, pos),
                        name_and_type_index: be_u16_at(s, pos + 2),
                    },
                    pos + 4,
                ),
            )
        } else {
            Err(DecodeError::TruncatedInput)
        }
    } else if tag == CT_INTERFACEMETHOD {
        if pos + 4 <= s.len() {
            Ok(
                (
                    CpEntry::InterfaceMethodRef {
                        class_index: be_u16_at(s, pos),
                        name_and_type_index: be_u16_at(s, pos + 2),
                    },
                    pos + 4,
                ),
            )
        } else {
            Err(DecodeError::TruncatedInput)
        }
    } else if tag == CT_NAMEANDTYPE {
        if pos + 4 <= s.len() {
            Ok(
                (
                    CpEntry::NameAndType {
                        name_index: be_u16_at(s, pos),
                        descriptor_index: be_u16_at(s, pos + 2),
                    },
                    pos + 4,
                ),
            )
        } else {
            Err(DecodeError::TruncatedInput)
        }
    } else if tag == CT_METHODHANDLE {
        if pos + 3 <= s.len() {
            Ok(
                (
                    CpEntry::MethodHandle {
                        reference_kind: s[pos],
                        reference_index: be_u16_at(s, pos + 1),
                    },
                    pos + 3,
                ),
            )
        } else {
            Err(DecodeError::TruncatedInput)
        }
    } else if tag == CT_METHODTYPE {
        if pos + 2 <= s.len() {
            Ok((CpEntry::MethodType { descriptor_index: be_u16_at(s, pos) }, pos + 2))
        } else {
            Err(DecodeError::TruncatedInput)
        }
    } else if tag == CT_INVOKEDYNAMIC {
        if pos + 4 <= s.len() {
            Ok(
                (
                    CpEntry::InvokeDynamic {
                        bootstrap_method_attr_index: be_u16_at(s, pos),
                        name_and_type_index: be_u16_at(s, pos + 2),
                    },
                    pos + 4,
                ),
            )
        } else {
            Err(DecodeError::TruncatedInput)
        }
    } else {
        Err(DecodeError::UnsupportedConstantTag { tag })
    }
}

/// Prepends `prefix` to the entries of a parse tail, passing an error
/// through.
pub open spec fn compose_items(
    prefix: Seq<CpEntry>,
    r: Result<(Seq<CpEntry>, int), DecodeError>,
) -> Result<(Seq<CpEntry>, int), DecodeError> {
    match r {
        Ok((rest, end)) => Ok((prefix + rest, end)),
        Err(e) => Err(e),
    }
}

/// What parsing pool slots `i` up to `n` (exclusive) at `pos` yields. A Long
/// or Double entry takes two slots, the second one a filler; one declared in
/// the final slot has no room for its filler slot, which counts as a pool
/// cut off mid-entry.
pub open spec fn spec_parse_items(s: Seq<u8>, pos: int, i: int, n: int) -> Result<
    (Seq<CpEntry>, int),
    DecodeError,
>
    decreases n - i,
{
    if i >= n {
        Ok((Seq::empty(), pos))
    } else if pos + 1 <= s.len() {
        let tag = s[pos];
        match spec_parse_item(tag, s, pos + 1) {
            Ok((e, pos2)) => {
                if tag == CT_LONG || tag == CT_DOUBLE {
                    if i + 1 < n {
                        compose_items(
                            seq![e, CpEntry::Filler],
                            spec_parse_items(s, pos2, i + 2, n),
                        )
                    } else {
                        Err(DecodeError::TruncatedInput)
                    }
                } else {
                    compose_items(seq![e], spec_parse_items(s, pos2, i + 1, n))
                }
            },
            Err(e) => Err(e),
        }
    } else {
        Err(DecodeError::TruncatedInput)
    }
}

/// What parsing a whole constant pool at `pos` yields: the declared 16-bit
/// count `n`, then entries for slots 1 up to `n`, behind the slot-0 filler.
pub open spec fn spec_parse_pool(s: Seq<u8>, pos: int) -> Result<
    (Seq<CpEntry>, int),
    DecodeError,
> {
    if pos + 2 <= s.len() {
        compose_items(
            seq![CpEntry::Filler],
            spec_parse_items(s, pos + 2, 1, be_u16_at(s, pos) as int),
        )
    } else {
        Err(DecodeError::TruncatedInput)
    }
}

/// How many filler slots a pool segment holds.
pub open spec fn count_fillers(entries: Seq<CpEntry>) -> int
    decreases entries.len(),
{
    if entries.len() == 0 {
        0
    } else {
        (if entries[0] is Filler {
            1int
        } else {
            0int
        }) + count_fillers(entries.drop_first())
    }
}

/// How many Long and Double entries a pool segment holds.
pub open spec fn count_long_double(entries: Seq<CpEntry>) -> int
    decreases entries.len(),
{
    if entries.len() == 0 {
        0
    } else {
        (if entries[0] is Long || entries[0] is Double {
            1int
        } else {
            0int
        }) + count_long_double(entries.drop_first())
    }
}

/// Both counts on a one-entry segment.
pub proof fn lemma_counts_singleton(e: CpEntry)
    ensures
        count_fillers(seq![e]) == if e is Filler {
            1int
        } else {
            0int
        },
        count_long_double(seq![e]) == if e is Long || e is Double {
            1int
        } else {
            0int
        },
{
    reveal_with_fuel(count_fillers, 2);
    reveal_with_fuel(count_long_double, 2);
    assert(seq![e].drop_first() =~= Seq::<CpEntry>::empty());
}

/// Both counts split over concatenation.
pub proof fn lemma_counts_concat(a: Seq<CpEntry>, b: Seq<CpEntry>)
    ensures
        count_fillers(a + b) == count_fillers(a) + count_fillers(b),
        count_long_double(a + b) == count_long_double(a) + count_long_double(b),
    decreases a.len(),
{
    if a.len() == 0 {
        assert(a + b =~= b);
    } else {
        assert((a + b).drop_first() =~= a.drop_first() + b);
        lemma_counts_concat(a.drop_first(), b);
    }
}

/// Law: a successful parse of pool slots `i` up to `n` yields exactly
/// `n - i` slots, and every Long or Double among them claims exactly one
/// filler slot.
pub proof fn lemma_parse_items_counts(s: Seq<u8>, pos: int, i: int, n: int)
    requires
        spec_parse_items(s, pos, i, n) is Ok,
    ensures
        ({
            let entries = spec_parse_items(s, pos, i, n)->Ok_0.0;
            &&& entries.len() == if i < n {
                n - i
            } else {
                0
            }
            &&& count_fillers(entries) == count_long_double(entries)
        }),
    decreases n - i,
{
    if i >= n {
    } else {
        let tag = s[pos];
        let (e, pos2) = spec_parse_item(tag, s, pos + 1)->Ok_0;
        if tag == CT_LONG || tag == CT_DOUBLE {
            lemma_parse_items_counts(s, pos2, i + 2, n);
            let rest = spec_parse_items(s, pos2, i + 2, n)->Ok_0.0;
            assert(seq![e, CpEntry::Filler] =~= seq![e] + seq![CpEntry::Filler]);
            lemma_counts_singleton(e);
            lemma_counts_singleton(CpEntry::Filler);
            lemma_counts_concat(seq![e], seq![CpEntry::Filler]);
            lemma_counts_concat(seq![e, CpEntry::Filler], rest);
            assert(spec_parse_items(s, pos, i, n)->Ok_0.0 == seq![e, CpEntry::Filler] + rest);
        } else {
            lemma_parse_items_counts(s, pos2, i + 1, n);
            let rest = spec_parse_items(s, pos2, i + 1, n)->Ok_0.0;
            lemma_counts_singleton(e);
            lemma_counts_concat(seq![e], rest);
            assert(spec_parse_items(s, pos, i, n)->Ok_0.0 == seq![e] + rest);
        }
    }
}

/// Law: a successfully parsed pool declaring count `n` holds `n` slots when
/// `n >= 1` (one of them the slot-0 filler) and a single filler slot when
/// `n == 0`; its addressable (non-filler) entries number the `n - 1`
/// declared slots minus one per Long/Double entry, each of which claims one
/// extra filler.
pub proof fn lemma_pool_entry_count(s: Seq<u8>, pos: int)
    requires
        0 <= pos,
        spec_parse_pool(s, pos) is Ok,
    ensures
        ({
            let entries = spec_parse_pool(s, pos)->Ok_0.0;
            let n = be_u16_at(s, pos) as int;
            &&& entries.len() == if n >= 1 {
                n
            } else {
                1
            }
            &&& count_fillers(entries) == 1 + count_long_double(entries)
            &&& entries.len() - count_fillers(entries) == if n >= 1 {
                (n - 1) - count_long_double(entries)
            } else {
                0
            }
        }),
{
    let n = be_u16_at(s, pos) as int;
    lemma_parse_items_counts(s, pos + 2, 1, n);
    let declared = spec_parse_items(s, pos + 2, 1, n)->Ok_0.0;
    lemma_counts_singleton(CpEntry::Filler);
    lemma_counts_concat(seq![CpEntry::Filler], declared);
    assert(spec_parse_pool(s, pos)->Ok_0.0 == seq![CpEntry::Filler] + declared);
}

/// Prepending distributes over composing parse tails.
pub proof fn lemma_compose_assoc(
    a: Seq<CpEntry>,
    b: Seq<CpEntry>,
    r: Result<(Seq<CpEntry>, int), DecodeError>,
)
    ensures
        compose_items(a, compose_items(b, r)) == compose_items(a + b, r),
{
    match r {
        Ok((rest, end)) => {
            assert(a + (b + rest) =~= (a + b) + rest);
        },
        Err(_) => {},
    }
}

/// One row of a Code attribute's exception table.
#[derive(Debug, Clone, Copy, PartialEq, Eq, Structural)]
pub struct ExceptionTableEntry {
    pub start_pc: u16,
    pub end_pc: u16,
    pub handler_pc: u16,
    pub catch_type: u16,
}

/// One (byte offset, source line) row of a LineNumberTable attribute.
#[derive(Debug, Clone, Copy, PartialEq, Eq, Structural)]
pub struct LineNumberTableEntry {
    pub start_pc: u16,
    pub line_number: u16,
}

/// One row of a LocalVariableTable attribute.
#[derive(Debug, Clone, Copy, PartialEq, Eq, Structural)]
pub struct LocalVariableTableEnty {
    pub start_pc: u16,
    pub length: u16,
    pub name_index: u16,
    pub descriptor_index: u16,
    pub index: u16,
}

/// A named, length-prefixed extension block attached to a class, a field or
/// a method. A Code attribute owns a nested list of further attributes, so
/// the type is an ownership tree. An attribute whose name is outside the
/// recognized set is kept as an opaque entry, skipped over by its declared
/// length.
#[allow(inconsistent_fields)]
pub enum AttributeInfo {
    ATLineNumberTable { entries: Vec<LineNumberTableEntry> },
    ATCode {
        max_stack: u16,
        max_locals: u16,
        code: Vec<u8>,
        exceptions: Vec<ExceptionTableEntry>,
        attributes: Vec<AttributeInfo>,
    },
    ATLocalVariableTable { entries: Vec<LocalVariableTableEnty> },
    ATSourceFile { source_file_index: u16 },
    ATUnknown { attribute_name_index: u16 },
}

/// The mathematical model of an attribute tree.
#[allow(inconsistent_fields)]
pub enum AttrModel {
    LineNumberTable { entries: Seq<LineNumberTableEntry> },
    Code {
        max_stack: u16,
        max_locals: u16,
        code: Seq<u8>,
        exceptions: Seq<ExceptionTableEntry>,
        attributes: Seq<AttrModel>,
    },
    LocalVariableTable { entries: Seq<LocalVariableTableEnty> },
    SourceFile { source_file_index: u16 },
    Unknown { attribute_name_index: u16 },
}

/// The model of one attribute.
pub open spec fn spec_attr_view(a: AttributeInfo) -> AttrModel
    decreases a, 0int,
{
    match a {
        AttributeInfo::ATLineNumberTable { entries } => AttrModel::LineNumberTable {
            entries: entries@,
        },
        AttributeInfo::ATCode { max_stack, max_locals, code, exceptions, attributes } => {
            proof {
                assert(decreases_to!(attributes => attributes@));
            }
            AttrModel::Code {
                max_stack,
                max_locals,
                code: code@,
                exceptions: exceptions@,
                attributes: spec_attrs_view(attributes@),
            }
        },
        AttributeInfo::ATLocalVariableTable { entries } => AttrModel::LocalVariableTable {
            entries: entries@,
        },
        AttributeInfo::ATSourceFile { source_file_index } => AttrModel::SourceFile {
            source_file_index,
        },
        AttributeInfo::ATUnknown { attribute_name_index } => AttrModel::Unknown {
            attribute_name_index,
        },
    }
}

/// The model of a list of attributes, elementwise.
pub open spec fn spec_attrs_view(l: Seq<AttributeInfo>) -> Seq<AttrModel>
    decreases l, 1int,
{
    if l.len() == 0 {
        Seq::empty()
    } else {
        proof {
            assert(decreases_to!(l => l[0]));
        }
        seq![spec_attr_view(l[0])] + spec_attrs_view(l.drop_first())
    }
}

impl View for AttributeInfo {
    type V = AttrModel;

    open spec fn view(&self) -> AttrModel {
        spec_attr_view(*self)
    }
}

/// The list model distributes over push.
pub proof fn lemma_attrs_view_push(l: Seq<AttributeInfo>, a: AttributeInfo)
    ensures
        spec_attrs_view(l.push(a)) == spec_attrs_view(l).push(spec_attr_view(a)),
    decreases l.len(),
{
    reveal_with_fuel(spec_attrs_view, 3);
    if l.len() == 0 {
        assert(l.push(a).drop_first() =~= Seq::<AttributeInfo>::empty());
        assert(spec_attrs_view(l.push(a)) =~= spec_attrs_view(l).push(spec_attr_view(a)));
    } else {
        assert(l.push(a).drop_first() =~= l.drop_first().push(a));
        lemma_attrs_view_push(l.drop_first(), a);
        assert(l.push(a)[0] == l[0]);
        assert(spec_attrs_view(l.push(a)) == seq![spec_attr_view(l[0])] + spec_attrs_view(
            l.drop_first().push(a),
        ));
        assert(spec_attrs_view(l) == seq![spec_attr_view(l[0])] + spec_attrs_view(
            l.drop_first(),
        ));
        assert((seq![spec_attr_view(l[0])] + spec_attrs_view(l.drop_first())).push(
            spec_attr_view(a),
        ) =~= seq![spec_attr_view(l[0])] + spec_attrs_view(l.drop_first()).push(
            spec_attr_view(a),
        ));
        assert(spec_attrs_view(l.push(a)) =~= spec_attrs_view(l).push(spec_attr_view(a)));
    }
}

/// The exception-table row laid out `k` rows after `pos`.
pub open spec fn spec_exception_entry(s: Seq<u8>, pos: int, k: int) -> ExceptionTableEntry {
    ExceptionTableEntry {
        start_pc: be_u16_at(s, pos + 8 * k),
        end_pc: be_u16_at(s, pos + 8 * k + 2),
        handler_pc: be_u16_at(s, pos + 8 * k + 4),
        catch_type: be_u16_at(s, pos + 8 * k + 6),
    }
}

/// What parsing an exception table at `pos` yields: a 16-bit row count and
/// that many four-field rows.
pub open spec fn spec_parse_exception_table(s: Seq<u8>, pos: int) -> Result<
    (Seq<ExceptionTableEntry>, int),
    DecodeError,
> {
    if pos + 2 <= s.len() {
        let n = be_u16_at(s, pos) as int;
        if pos + 2 + 8 * n <= s.len() {
            Ok((Seq::new(n as nat, |k: int| spec_exception_entry(s, pos + 2, k)), pos + 2 + 8 * n))
        } else {
            Err(DecodeError::TruncatedInput)
        }
    } else {
        Err(DecodeError::TruncatedInput)
    }
}

/// The line-number row laid out `k` rows after `pos`.
pub open spec fn spec_line_number_entry(s: Seq<u8>, pos: int, k: int) -> LineNumberTableEntry {
    LineNumberTableEntry {
        start_pc: be_u16_at(s, pos + 4 * k),
        line_number: be_u16_at(s, pos + 4 * k + 2),
    }
}

/// What parsing a line-number table at `pos` yields.
pub open spec fn spec_parse_line_number_table(s: Seq<u8>, pos: int) -> Result<
    (Seq<LineNumberTableEntry>, int),
    DecodeError,
> {
    if pos + 2 <= s.len() {
        let n = be_u16_at(s, pos) as int;
        if pos + 2 + 4 * n <= s.len() {
            Ok(
                (
                    Seq::new(n as nat, |k: int| spec_line_number_entry(s, pos + 2, k)),
                    pos + 2 + 4 * n,
                ),
            )
        } else {
            Err(DecodeError::TruncatedInput)
        }
    } else {
        Err(DecodeError::TruncatedInput)
    }
}

/// The local-variable row laid out `k` rows after `pos`.
pub open spec fn spec_local_variable_entry(s: Seq<u8>, pos: int, k: int) -> LocalVariableTableEnty {
    LocalVariableTableEnty {
        start_pc: be_u16_at(s, pos + 10 * k),
        length: be_u16_at(s, pos + 10 * k + 2),
        name_index: be_u16_at(s, pos + 10 * k + 4),
        descriptor_index: be_u16_at(s, pos + 10 * k + 6),
        index: be_u16_at(s, pos + 10 * k + 8),
    }
}

/// What parsing a local-variable table at `pos` yields.
pub open spec fn spec_parse_local_variable_table(s: Seq<u8>, pos: int) -> Result<
    (Seq<LocalVariableTableEnty>, int),
    DecodeError,
> {
    if pos + 2 <= s.len() {
        let n = be_u16_at(s, pos) as int;
        if pos + 2 + 10 * n <= s.len() {
            Ok(
                (
                    Seq::new(n as nat, |k: int| spec_local_variable_entry(s, pos + 2, k)),
                    pos + 2 + 10 * n,
                ),
            )
        } else {
            Err(DecodeError::TruncatedInput)
        }
    } else {
        Err(DecodeError::TruncatedInput)
    }
}

/// Prepends `prefix` to the attributes of a parse tail, passing an error
/// through.
pub open spec fn compose_attrs(
    prefix: Seq<AttrModel>,
    r: Result<(Seq<AttrModel>, int), DecodeError>,
) -> Result<(Seq<AttrModel>, int), DecodeError> {
    match r {
        Ok((rest, end)) => Ok((prefix + rest, end)),
        Err(e) => Err(e),
    }
}

/// Prepending distributes over composing attribute parse tails.
pub proof fn lemma_compose_attrs_assoc(
    a: Seq<AttrModel>,
    b: Seq<AttrModel>,
    r: Result<(Seq<AttrModel>, int), DecodeError>,
)
    ensures
        compose_attrs(a, compose_attrs(b, r)) == compose_attrs(a + b, r),
{
    match r {
        Ok((rest, end)) => {
            assert(a + (b + rest) =~= (a + b) + rest);
        },
        Err(_) => {},
    }
}

/// What parsing one attribute at `pos` yields. The attribute's name selects
/// its layout; a name outside the recognized set makes an opaque entry whose
/// body is skipped over by the declared length; for a recognized name the
/// declared length is cross-checked against the bytes the body consumed.
pub open spec fn spec_parse_attribute(pool: Seq<CpEntry>, s: Seq<u8>, pos: int) -> Result<
    (AttrModel, int),
    DecodeError,
>
    decreases s.len() - pos, 0int,
{
    if pos + 6 <= s.len() {
        let name_index = be_u16_at(s, pos);
        let length = be_u32_at(s, pos + 2) as int;
        let body = pos + 6;
        match spec_pool_string(pool, name_index) {
            Ok(name) => {
                if name == "Code"@ {
                    if body + 8 <= s.len() {
                        let max_stack = be_u16_at(s, body);
                        let max_locals = be_u16_at(s, body + 2);
                        let code_len = be_u32_at(s, body + 4) as int;
                        if body + 8 + code_len <= s.len() {
                            let code = s.subrange(body + 8, body + 8 + code_len);
                            match spec_parse_exception_table(s, body + 8 + code_len) {
                                Ok((exceptions, pos3)) => {
                                    if pos < pos3 <= s.len() {
                                        match spec_parse_attributes(pool, s, pos3) {
                                            Ok((attributes, pos4)) => {
                                                if pos4 - body == length {
                                                    Ok(
                                                        (
                                                            AttrModel::Code {
                                                                max_stack,
                                                                max_locals,
                                                                code,
                                                                exceptions,
                                                                attributes,
                                                            },
                                                            pos4,
                                                        ),
                                                    )
                                                } else {
                                                    Err(DecodeError::AttributeLengthMismatch)
                                                }
                                            },
                                            Err(e) => Err(e),
                                        }
                                    } else {
                                        Err(DecodeError::TruncatedInput)
                                    }
                                },
                                Err(e) => Err(e),
                            }
                        } else {
                            Err(DecodeError::TruncatedInput)
                        }
                    } else {
                        Err(DecodeError::TruncatedInput)
                    }
                } else if name == "LineNumberTable"@ {
                    match spec_parse_line_number_table(s, body) {
                        Ok((entries, pos2)) => {
                            if pos2 - body == length {
                                Ok((AttrModel::LineNumberTable { entries }, pos2))
                            } else {
                                Err(DecodeError::AttributeLengthMismatch)
                            }
                        },
                        Err(e) => Err(e),
                    }
                } else if name == "LocalVariableTable"@ {
                    match spec_parse_local_variable_table(s, body) {
                        Ok((entries, pos2)) => {
                            if pos2 - body == length {
                                Ok((AttrModel::LocalVariableTable { entries }, pos2))
                            } else {
                                Err(DecodeError::AttributeLengthMismatch)
                            }
                        },
                        Err(e) => Err(e),
                    }
                } else if name == "SourceFile"@ {
                    if body + 2 <= s.len() {
                        if length == 2 {
                            Ok((AttrModel::SourceFile { source_file_index: be_u16_at(s, body) },
                            body + 2))
                        } else {
                            Err(DecodeError::AttributeLengthMismatch)
                        }
                    } else {
                        Err(DecodeError::TruncatedInput)
                    }
                } else {
                    if body + length <= s.len() {
                        Ok((AttrModel::Unknown { attribute_name_index: name_index }, body + length))
                    } else {
                        Err(DecodeError::TruncatedInput)
                    }
                }
            },
            Err(e) => Err(e),
        }
    } else {
        Err(DecodeError::TruncatedInput)
    }
}

/// What parsing `k` consecutive attributes at `pos` yields.
pub open spec fn spec_parse_attr_items(pool: Seq<CpEntry>, s: Seq<u8>, pos: int, k: int) -> Result<
    (Seq<AttrModel>, int),
    DecodeError,
>
    decreases s.len() - pos, k,
{
    if k <= 0 {
        Ok((Seq::empty(), pos))
    } else {
        match spec_parse_attribute(pool, s, pos) {
            Ok((a, pos2)) => {
                if pos < pos2 <= s.len() {
                    compose_attrs(seq![a], spec_parse_attr_items(pool, s, pos2, k - 1))
                } else {
                    Err(DecodeError::TruncatedInput)
                }
            },
            Err(e) => Err(e),
        }
    }
}

/// What parsing an attribute list at `pos` yields: a 16-bit count, then that
/// many attributes.
pub open spec fn spec_parse_attributes(pool: Seq<CpEntry>, s: Seq<u8>, pos: int) -> Result<
    (Seq<AttrModel>, int),
    DecodeError,
>
    decreases s.len() - pos, 0int,
{
    if pos + 2 <= s.len() {
        spec_parse_attr_items(pool, s, pos + 2, be_u16_at(s, pos) as int)
    } else {
        Err(DecodeError::TruncatedInput)
    }
}

/// A parsed attribute always advances the position past its six header
/// bytes and stays inside the buffer.
pub proof fn lemma_attribute_advances(pool: Seq<CpEntry>, s: Seq<u8>, pos: int)
    requires
        0 <= pos,
        spec_parse_attribute(pool, s, pos) is Ok,
    ensures
        pos + 6 <= spec_parse_attribute(pool, s, pos)->Ok_0.1 <= s.len(),
    decreases s.len() - pos, 0int,
{
    let name_index = be_u16_at(s, pos);
    let length = be_u32_at(s, pos + 2) as int;
    let body = pos + 6;
    let name = spec_pool_string(pool, name_index)->Ok_0;
    if name == "Code"@ {
        let code_len = be_u32_at(s, body + 4) as int;
        let pos3 = spec_parse_exception_table(s, body + 8 + code_len)->Ok_0.1;
        lemma_attributes_advance(pool, s, pos3);
    }
}

/// A parsed attribute list advances past its two count bytes and stays
/// inside the buffer.
pub proof fn lemma_attributes_advance(pool: Seq<CpEntry>, s: Seq<u8>, pos: int)
    requires
        0 <= pos,
        spec_parse_attributes(pool, s, pos) is Ok,
    ensures
        pos + 2 <= spec_parse_attributes(pool, s, pos)->Ok_0.1 <= s.len(),
    decreases s.len() - pos, 1int,
{
    lemma_attr_items_advance(pool, s, pos + 2, be_u16_at(s, pos) as int);
}

/// A parsed attribute run never moves backwards and stays inside the
/// buffer.
pub proof fn lemma_attr_items_advance(pool: Seq<CpEntry>, s: Seq<u8>, pos: int, k: int)
    requires
        0 <= pos <= s.len(),
        spec_parse_attr_items(pool, s, pos, k) is Ok,
    ensures
        pos <= spec_parse_attr_items(pool, s, pos, k)->Ok_0.1 <= s.len(),
    decreases s.len() - pos, k,
{
    if k <= 0 {
    } else {
        let pos2 = spec_parse_attribute(pool, s, pos)->Ok_0.1;
        lemma_attr_items_advance(pool, s, pos2, k - 1);
    }
}

/// True exactly when the string equals the literal.
fn string_eq_lit(a: &String, b: &str) -> (r: bool)
    ensures
        r == (a@ == b@),
{
    let owned = b.to_owned();
    *a == owned
}

/// Recursive-descent reader for attribute lists.
struct AttributeParser {}

impl AttributeParser {
    /// Reads the four 16-bit fields of one exception-table row.
    fn read_exception_table_entry(byte_array: &mut ByteArray) -> (r: Result<
        ExceptionTableEntry,
        DecodeError,
    >)
        ensures
            final(byte_array).bytes@ == old(byte_array).bytes@,
            old(byte_array).can_read(8) ==> {
                &&& r matches Ok(e) && e == spec_exception_entry(
                    old(byte_array).bytes@,
                    old(byte_array).current as int,
                    0,
                )
                &&& final(byte_array).current == old(byte_array).current + 8
            },
            !old(byte_array).can_read(8) ==> r == Err::<ExceptionTableEntry, DecodeError>(
                DecodeError::TruncatedInput,
            ),
    {
        let start_pc = match byte_array.read_u16() {
            Ok(v) => v,
            Err(e) => { return Err(e) },
        };
        let end_pc = match byte_array.read_u16() {
            Ok(v) => v,
            Err(e) => { return Err(e) },
        };
        let handler_pc = match byte_array.read_u16() {
            Ok(v) => v,
            Err(e) => { return Err(e) },
        };
        let catch_type = match byte_array.read_u16() {
            Ok(v) => v,
            Err(e) => { return Err(e) },
        };
        Ok(ExceptionTableEntry { start_pc, end_pc, handler_pc, catch_type })
    }

    /// Reads a Code attribute's exception table: a 16-bit row count and that
    /// many rows.
    fn read_exception_table(byte_array: &mut ByteArray) -> (r: Result<
        Vec<ExceptionTableEntry>,
        DecodeError,
    >)
        ensures
            final(byte_array).bytes@ == old(byte_array).bytes@,
            spec_parse_exception_table(old(byte_array).bytes@, old(byte_array).current as int)
                matches Ok(p) ==> {
                &&& r matches Ok(v) && v@ == p.0
                &&& final(byte_array).current == p.1
            },
            spec_parse_exception_table(old(byte_array).bytes@, old(byte_array).current as int)
                matches Err(e) ==> r == Err::<Vec<ExceptionTableEntry>, DecodeError>(e),
    {
        let ghost s = old(byte_array).bytes@;
        let ghost pos = old(byte_array).current as int;
        let exception_table_length = match byte_array.read_u16() {
            Ok(v) => v,
            Err(e) => { return Err(e) },
        };
        let n = exception_table_length as usize;
        let mut exception_table: Vec<ExceptionTableEntry> = Vec::new();
        let mut j: usize = 0;
        while j < n
            invariant
                byte_array.bytes@ == s,
                s == old(byte_array).bytes@,
                pos == old(byte_array).current as int,
                0 <= pos && pos + 2 <= s.len(),
                exception_table_length == be_u16_at(s, pos),
                n == exception_table_length as usize,
                j <= n,
                exception_table@.len() == j,
                byte_array.current as int == pos + 2 + 8 * j,
                pos + 2 + 8 * j <= s.len(),
                exception_table@ == Seq::new(
                    j as nat,
                    |k: int| spec_exception_entry(s, pos + 2, k),
                ),
            decreases n - j,
        {
            let entry = match Self::read_exception_table_entry(byte_array) {
                Ok(v) => v,
                Err(e) => { return Err(e) },
            };
            exception_table.push(entry);
            proof {
                assert(exception_table@ =~= Seq::new(
                    (j + 1) as nat,
                    |k: int| spec_exception_entry(s, pos + 2, k),
                ));
            }
            j = j + 1;
        }
        Ok(exception_table)
    }

    /// Reads a LineNumberTable body: a 16-bit row count and that many rows.
    fn read_line_number_table(byte_array: &mut ByteArray) -> (r: Result<
        Vec<LineNumberTableEntry>,
        DecodeError,
    >)
        ensures
            final(byte_array).bytes@ == old(byte_array).bytes@,
            spec_parse_line_number_table(old(byte_array).bytes@, old(byte_array).current as int)
                matches Ok(p) ==> {
                &&& r matches Ok(v) && v@ == p.0
                &&& final(byte_array).current == p.1
            },
            spec_parse_line_number_table(old(byte_array).bytes@, old(byte_array).current as int)
                matches Err(e) ==> r == Err::<Vec<LineNumberTableEntry>, DecodeError>(e),
    {
        let ghost s = old(byte_array).bytes@;
        let ghost pos = old(byte_array).current as int;
        let table_length = match byte_array.read_u16() {
            Ok(v) => v,
            Err(e) => { return Err(e) },
        };
        let n = table_length as usize;
        let mut entries: Vec<LineNumberTableEntry> = Vec::new();
        let mut j: usize = 0;
        while j < n
            invariant
                byte_array.bytes@ == s,
                s == old(byte_array).bytes@,
                pos == old(byte_array).current as int,
                0 <= pos && pos + 2 <= s.len(),
                table_length == be_u16_at(s, pos),
                n == table_length as usize,
                j <= n,
                entries@.len() == j,
                byte_array.current as int == pos + 2 + 4 * j,
                pos + 2 + 4 * j <= s.len(),
                entries@ == Seq::new(j as nat, |k: int| spec_line_number_entry(s, pos + 2, k)),
            decreases n - j,
        {
            let start_pc = match byte_array.read_u16() {
                Ok(v) => v,
                Err(e) => { return Err(e) },
            };
            let line_number = match byte_array.read_u16() {
                Ok(v) => v,
                Err(e) => { return Err(e) },
            };
            entries.push(LineNumberTableEntry { start_pc, line_number });
            proof {
                assert(entries@ =~= Seq::new(
                    (j + 1) as nat,
                    |k: int| spec_line_number_entry(s, pos + 2, k),
                ));
            }
            j = j + 1;
        }
        Ok(entries)
    }

    /// Reads a LocalVariableTable body: a 16-bit row count and that many
    /// rows.
    fn read_local_variable_table(byte_array: &mut ByteArray) -> (r: Result<
        Vec<LocalVariableTableEnty>,
        DecodeError,
    >)
        ensures
            final(byte_array).bytes@ == old(byte_array).bytes@,
            spec_parse_local_variable_table(old(byte_array).bytes@, old(byte_array).current as int)
                matches Ok(p) ==> {
                &&& r matches Ok(v) && v@ == p.0
                &&& final(byte_array).current == p.1
            },
            spec_parse_local_variable_table(old(byte_array).bytes@, old(byte_array).current as int)
                matches Err(e) ==> r == Err::<Vec<LocalVariableTableEnty>, DecodeError>(e),
    {
        let ghost s = old(byte_array).bytes@;
        let ghost pos = old(byte_array).current as int;
        let table_length = match byte_array.read_u16() {
            Ok(v) => v,
            Err(e) => { return Err(e) },
        };
        let n = table_length as usize;
        let mut entries: Vec<LocalVariableTableEnty> = Vec::new();
        let mut j: usize = 0;
        while j < n
            invariant
                byte_array.bytes@ == s,
                s == old(byte_array).bytes@,
                pos == old(byte_array).current as int,
                0 <= pos && pos + 2 <= s.len(),
                table_length == be_u16_at(s, pos),
                n == table_length as usize,
                j <= n,
                entries@.len() == j,
                byte_array.current as int == pos + 2 + 10 * j,
                pos + 2 + 10 * j <= s.len(),
                entries@ == Seq::new(j as nat, |k: int| spec_local_variable_entry(s, pos + 2, k)),
            decreases n - j,
        {
            let start_pc = match byte_array.read_u16() {
                Ok(v) => v,
                Err(e) => { return Err(e) },
            };
            let length = match byte_array.read_u16() {
                Ok(v) => v,
                Err(e) => { return Err(e) },
            };
            let name_index = match byte_array.read_u16() {
                Ok(v) => v,
                Err(e) => { return Err(e) },
            };
            let descriptor_index = match byte_array.read_u16() {
                Ok(v) => v,
                Err(e) => { return Err(e) },
            };
            let index = match byte_array.read_u16() {
                Ok(v) => v,
                Err(e) => { return Err(e) },
            };
            entries.push(
                LocalVariableTableEnty { start_pc, length, name_index, descriptor_index, index },
            );
            proof {
                assert(entries@ =~= Seq::new(
                    (j + 1) as nat,
                    |k: int| spec_local_variable_entry(s, pos + 2, k),
                ));
            }
            j = j + 1;
        }
        Ok(entries)
    }

    /// Reads one attribute: a name index and a 32-bit declared length,
    /// then the body selected by the resolved name. A Code body recurses
    /// into its nested attribute list; a name outside the recognized set is
    /// kept as an opaque entry and skipped over by the declared length; for
    /// a recognized name the declared length is cross-checked against the
    /// bytes the body consumed.
    fn read_attribute(byte_array: &mut ByteArray, constant_pool: &ConstantPool) -> (r: Result<
        AttributeInfo,
        DecodeError,
    >)
        ensures
            final(byte_array).bytes@ == old(byte_array).bytes@,
            spec_parse_attribute(
                constant_pool@,
                old(byte_array).bytes@,
                old(byte_array).current as int,
            ) matches Ok(ap) ==> {
                &&& r matches Ok(a) && spec_attr_view(a) == ap.0
                &&& final(byte_array).current == ap.1
            },
            spec_parse_attribute(
                constant_pool@,
                old(byte_array).bytes@,
                old(byte_array).current as int,
            ) matches Err(e) ==> r == Err::<AttributeInfo, DecodeError>(e),
        decreases old(byte_array).bytes@.len() - old(byte_array).current,
    {
        let ghost s = old(byte_array).bytes@;
        let ghost cur = old(byte_array).current as int;
        let ghost pm = constant_pool@;
        let attribute_name_index = match byte_array.read_u16() {
            Ok(v) => v,
            Err(e) => { return Err(e) },
        };
        let attribute_length = match byte_array.read_u32() {
            Ok(v) => v,
            Err(e) => { return Err(e) },
        };
        let name = match constant_pool.get_string(attribute_name_index) {
            Ok(n) => n,
            Err(e) => { return Err(e) },
        };
        let body_start = byte_array.current;
        if string_eq_lit(name, "Code") {
            let max_stack = match byte_array.read_u16() {
                Ok(v) => v,
                Err(e) => { return Err(e) },
            };
            let max_locals = match byte_array.read_u16() {
                Ok(v) => v,
                Err(e) => { return Err(e) },
            };
            let code_length = match byte_array.read_u32() {
                Ok(v) => v,
                Err(e) => { return Err(e) },
            };
            let code_vec = match byte_array.read_bytes(code_length as usize) {
                Ok(v) => v,
                Err(e) => { return Err(e) },
            };
            let exceptions = match Self::read_exception_table(byte_array) {
                Ok(v) => v,
                Err(e) => { return Err(e) },
            };
            let ghost pos3 = byte_array.current as int;
            let attributes = match Self::read_attributes(byte_array, constant_pool) {
                Ok(v) => v,
                Err(e) => { return Err(e) },
            };
            proof {
                lemma_attributes_advance(pm, s, pos3);
            }
            let consumed = byte_array.current - body_start;
            if consumed == attribute_length as usize {
                Ok(
                    AttributeInfo::ATCode {
                        max_stack,
                        max_locals,
                        code: code_vec,
                        exceptions,
                        attributes,
                    },
                )
            } else {
                Err(DecodeError::AttributeLengthMismatch)
            }
        } else if string_eq_lit(name, "LineNumberTable") {
            let entries = match Self::read_line_number_table(byte_array) {
                Ok(v) => v,
                Err(e) => { return Err(e) },
            };
            let consumed = byte_array.current - body_start;
            if consumed == attribute_length as usize {
                Ok(AttributeInfo::ATLineNumberTable { entries })
            } else {
                Err(DecodeError::AttributeLengthMismatch)
            }
        } else if string_eq_lit(name, "LocalVariableTable") {
            let entries = match Self::read_local_variable_table(byte_array) {
                Ok(v) => v,
                Err(e) => { return Err(e) },
            };
            let consumed = byte_array.current - body_start;
            if consumed == attribute_length as usize {
                Ok(AttributeInfo::ATLocalVariableTable { entries })
            } else {
                Err(DecodeError::AttributeLengthMismatch)
            }
        } else if string_eq_lit(name, "SourceFile") {
            let source_file_index = match byte_array.read_u16() {
                Ok(v) => v,
                Err(e) => { return Err(e) },
            };
            if attribute_length == 2 {
                Ok(AttributeInfo::ATSourceFile { source_file_index })
            } else {
                Err(DecodeError::AttributeLengthMismatch)
            }
        } else {
            let _skipped = match byte_array.read_bytes(attribute_length as usize) {
                Ok(v) => v,
                Err(e) => { return Err(e) },
            };
            Ok(AttributeInfo::ATUnknown { attribute_name_index })
        }
    }

    /// Reads an attribute list: a 16-bit count, then that many attributes.
    fn read_attributes(byte_array: &mut ByteArray, constant_pool: &ConstantPool) -> (r: Result<
        Vec<AttributeInfo>,
        DecodeError,
    >)
        ensures
            final(byte_array).bytes@ == old(byte_array).bytes@,
            spec_parse_attributes(
                constant_pool@,
                old(byte_array).bytes@,
                old(byte_array).current as int,
            ) matches Ok(ap) ==> {
                &&& r matches Ok(attrs) && spec_attrs_view(attrs@) == ap.0
                &&& final(byte_array).current == ap.1
            },
            spec_parse_attributes(
                constant_pool@,
                old(byte_array).bytes@,
                old(byte_array).current as int,
            ) matches Err(e) ==> r == Err::<Vec<AttributeInfo>, DecodeError>(e),
        decreases old(byte_array).bytes@.len() - old(byte_array).current,
    {
        let ghost s = old(byte_array).bytes@;
        let ghost c0 = old(byte_array).current as int;
        let ghost pm = constant_pool@;
        let count16 = match byte_array.read_u16() {
            Ok(c) => c,
            Err(e) => { return Err(e) },
        };
        let count = count16 as usize;
        let mut vec: Vec<AttributeInfo> = Vec::new();
        let mut j: usize = 0;
        while j < count
            invariant
                byte_array.bytes@ == s,
                s == old(byte_array).bytes@,
                c0 == old(byte_array).current as int,
                pm == constant_pool@,
                0 <= c0 && c0 + 2 <= s.len(),
                count16 == be_u16_at(s, c0),
                count == count16 as usize,
                j <= count,
                vec@.len() == j,
                c0 + 2 <= byte_array.current as int <= s.len(),
                spec_parse_attributes(pm, s, c0) == compose_attrs(
                    spec_attrs_view(vec@),
                    spec_parse_attr_items(pm, s, byte_array.current as int, (count - j) as int),
                ),
            decreases count - j,
        {
            let ghost cur = byte_array.current as int;
            let ghost done = spec_attrs_view(vec@);
            let ghost k = (count - j) as int;
            let ghost vec_before = vec@;
            let attr = match Self::read_attribute(byte_array, constant_pool) {
                Ok(a) => a,
                Err(e) => { return Err(e) },
            };
            proof {
                lemma_attribute_advances(pm, s, cur);
            }
            vec.push(attr);
            proof {
                let a_model = spec_attr_view(attr);
                assert(spec_parse_attr_items(pm, s, cur, k) == compose_attrs(
                    seq![a_model],
                    spec_parse_attr_items(pm, s, byte_array.current as int, k - 1),
                ));
                lemma_attrs_view_push(vec_before, attr);
                assert(spec_attrs_view(vec@) =~= done + seq![a_model]);
                lemma_compose_attrs_assoc(
                    done,
                    seq![a_model],
                    spec_parse_attr_items(pm, s, byte_array.current as int, k - 1),
                );
            }
            j = j + 1;
        }
        proof {
            assert(spec_parse_attr_items(pm, s, byte_array.current as int, (count - j) as int)
                == Ok::<(Seq<AttrModel>, int), DecodeError>(
                (Seq::empty(), byte_array.current as int),
            ));
            assert(spec_attrs_view(vec@) + Seq::<AttrModel>::empty() =~= spec_attrs_view(vec@));
        }
        Ok(vec)
    }
}

/// One field of the class: its flags, its name and descriptor indices into
/// the constant pool, and its attribute list. Field attributes beyond the
/// recognized set are kept as opaque entries by the attribute decoder.
pub struct FieldInfo {
    pub access_flags: u16,
    pub name_index: u16,
    pub descriptor_index: u16,
    pub attributes: Vec<AttributeInfo>,
}

/// The mathematical model of a field.
pub struct FieldModel {
    pub access_flags: u16,
    pub name_index: u16,
    pub descriptor_index: u16,
    pub attributes: Seq<AttrModel>,
}

impl View for FieldInfo {
    type V = FieldModel;

    open spec fn view(&self) -> FieldModel {
        FieldModel {
            access_flags: self.access_flags,
            name_index: self.name_index,
            descriptor_index: self.descriptor_index,
            attributes: spec_attrs_view(self.attributes@),
        }
    }
}

/// One method of the class: its flag set, its name and descriptor indices,
/// its attribute list, and its descriptor parsed into argument and return
/// type tokens.
pub struct MethodInfo {
    pub access_flags: MethodFlags,
    pub descriptor_index: u16,
    pub attributes: Vec<AttributeInfo>,
    pub return_type: String,
    pub args: Vec<String>,
    pub name_index: u16,
}

/// The mathematical model of a method.
pub struct MethodModel {
    pub access_flags: u16,
    pub descriptor_index: u16,
    pub attributes: Seq<AttrModel>,
    pub return_type: Seq<char>,
    pub args: Seq<Seq<char>>,
    pub name_index: u16,
}

impl View for MethodInfo {
    type V = MethodModel;

    open spec fn view(&self) -> MethodModel {
        MethodModel {
            access_flags: self.access_flags.bits,
            descriptor_index: self.descriptor_index,
            attributes: spec_attrs_view(self.attributes@),
            return_type: self.return_type@,
            args: self.args@.map_values(|t: String| t@),
            name_index: self.name_index,
        }
    }
}

impl MethodInfo {
    /// The method's name resolved through the constant pool, or the typed
    /// mismatch error.
    pub fn get_name<'a>(&self, constant_pool: &'a ConstantPool) -> (r: Result<
        &'a String,
        DecodeError,
    >)
        ensures
            r matches Ok(s) ==> constant_pool.spec_get_string(self.name_index) == Ok::<
                Seq<char>,
                DecodeError,
            >(s@),
            r matches Err(e) ==> constant_pool.spec_get_string(self.name_index) == Err::<
                Seq<char>,
                DecodeError,
            >(e),
    {
        constant_pool.get_string(self.name_index)
    }

    /// A method is a constructor exactly when its resolved name is the
    /// reserved instance-initializer name.
    pub fn is_constructor(&self, constant_pool: &ConstantPool) -> (r: bool)
        ensures
            r == (constant_pool.spec_get_string(self.name_index) == Ok::<Seq<char>, DecodeError>(
                "<init>"@,
            )),
    {
        match constant_pool.get_string(self.name_index) {
            Ok(name) => string_eq_lit(name, "<init>"),
            Err(_) => false,
        }
    }
}

/// What parsing the interface list at `pos` yields: a 16-bit count and that
/// many 16-bit pool indices.
pub open spec fn spec_parse_interfaces(s: Seq<u8>, pos: int) -> Result<(Seq<u16>, int), DecodeError> {
    if pos + 2 <= s.len() {
        let n = be_u16_at(s, pos) as int;
        if pos + 2 + 2 * n <= s.len() {
            Ok((Seq::new(n as nat, |k: int| be_u16_at(s, pos + 2 + 2 * k)), pos + 2 + 2 * n))
        } else {
            Err(DecodeError::TruncatedInput)
        }
    } else {
        Err(DecodeError::TruncatedInput)
    }
}

/// What parsing one field at `pos` yields: three 16-bit fields, then the
/// field's attribute list.
pub open spec fn spec_parse_field(pool: Seq<CpEntry>, s: Seq<u8>, pos: int) -> Result<
    (FieldModel, int),
    DecodeError,
> {
    if pos + 6 <= s.len() {
        match spec_parse_attributes(pool, s, pos + 6) {
            Ok((attributes, end)) => Ok(
                (
                    FieldModel {
                        access_flags: be_u16_at(s, pos),
                        name_index: be_u16_at(s, pos + 2),
                        descriptor_index: be_u16_at(s, pos + 4),
                        attributes,
                    },
                    end,
                ),
            ),
            Err(e) => Err(e),
        }
    } else {
        Err(DecodeError::TruncatedInput)
    }
}

/// Prepends `prefix` to the fields of a parse tail, passing an error
/// through.
pub open spec fn compose_fields(
    prefix: Seq<FieldModel>,
    r: Result<(Seq<FieldModel>, int), DecodeError>,
) -> Result<(Seq<FieldModel>, int), DecodeError> {
    match r {
        Ok((rest, end)) => Ok((prefix + rest, end)),
        Err(e) => Err(e),
    }
}

/// What parsing `k` consecutive fields at `pos` yields.
pub open spec fn spec_parse_field_items(pool: Seq<CpEntry>, s: Seq<u8>, pos: int, k: int) -> Result<
    (Seq<FieldModel>, int),
    DecodeError,
>
    decreases s.len() - pos, k,
{
    if k <= 0 {
        Ok((Seq::empty(), pos))
    } else {
        match spec_parse_field(pool, s, pos) {
            Ok((f, pos2)) => {
                if pos < pos2 <= s.len() {
                    compose_fields(seq![f], spec_parse_field_items(pool, s, pos2, k - 1))
                } else {
                    Err(DecodeError::TruncatedInput)
                }
            },
            Err(e) => Err(e),
        }
    }
}

/// What parsing the field list at `pos` yields: a 16-bit count, then that
/// many fields.
pub open spec fn spec_parse_fields(pool: Seq<CpEntry>, s: Seq<u8>, pos: int) -> Result<
    (Seq<FieldModel>, int),
    DecodeError,
> {
    if pos + 2 <= s.len() {
        spec_parse_field_items(pool, s, pos + 2, be_u16_at(s, pos) as int)
    } else {
        Err(DecodeError::TruncatedInput)
    }
}

/// What parsing one method at `pos` yields: three 16-bit fields and the
/// method's attribute list from the stream, then its descriptor string
/// resolved through the pool and parsed into argument and return tokens.
/// Flag bits outside the recognized set are dropped.
pub open spec fn spec_parse_method(pool: Seq<CpEntry>, s: Seq<u8>, pos: int) -> Result<
    (MethodModel, int),
    DecodeError,
> {
    if pos + 6 <= s.len() {
        match spec_parse_attributes(pool, s, pos + 6) {
            Ok((attributes, end)) => {
                match spec_pool_string(pool, be_u16_at(s, pos + 4)) {
                    Ok(descriptor) => {
                        match spec_parse_descriptor(descriptor) {
                            Ok((args, return_type)) => Ok(
                                (
                                    MethodModel {
                                        access_flags: be_u16_at(s, pos) & ACC_KNOWN_MASK,
                                        descriptor_index: be_u16_at(s, pos + 4),
                                        attributes,
                                        return_type,
                                        args,
                                        name_index: be_u16_at(s, pos + 2),
                                    },
                                    end,
                                ),
                            ),
                            Err(e) => Err(e),
                        }
                    },
                    Err(e) => Err(e),
                }
            },
            Err(e) => Err(e),
        }
    } else {
        Err(DecodeError::TruncatedInput)
    }
}

/// Prepends `prefix` to the methods of a parse tail, passing an error
/// through.
pub open spec fn compose_methods(
    prefix: Seq<MethodModel>,
    r: Result<(Seq<MethodModel>, int), DecodeError>,
) -> Result<(Seq<MethodModel>, int), DecodeError> {
    match r {
        Ok((rest, end)) => Ok((prefix + rest, end)),
        Err(e) => Err(e),
    }
}

/// What parsing `k` consecutive methods at `pos` yields.
pub open spec fn spec_parse_method_items(pool: Seq<CpEntry>, s: Seq<u8>, pos: int, k: int) -> Result<
    (Seq<MethodModel>, int),
    DecodeError,
>
    decreases s.len() - pos, k,
{
    if k <= 0 {
        Ok((Seq::empty(), pos))
    } else {
        match spec_parse_method(pool, s, pos) {
            Ok((m, pos2)) => {
                if pos < pos2 <= s.len() {
                    compose_methods(seq![m], spec_parse_method_items(pool, s, pos2, k - 1))
                } else {
                    Err(DecodeError::TruncatedInput)
                }
            },
            Err(e) => Err(e),
        }
    }
}

/// What parsing the method list at `pos` yields: a 16-bit count, then that
/// many methods.
pub open spec fn spec_parse_methods(pool: Seq<CpEntry>, s: Seq<u8>, pos: int) -> Result<
    (Seq<MethodModel>, int),
    DecodeError,
> {
    if pos + 2 <= s.len() {
        spec_parse_method_items(pool, s, pos + 2, be_u16_at(s, pos) as int)
    } else {
        Err(DecodeError::TruncatedInput)
    }
}

/// Prepending distributes over composing field parse tails.
pub proof fn lemma_compose_fields_assoc(
    a: Seq<FieldModel>,
    b: Seq<FieldModel>,
    r: Result<(Seq<FieldModel>, int), DecodeError>,
)
    ensures
        compose_fields(a, compose_fields(b, r)) == compose_fields(a + b, r),
{
    match r {
        Ok((rest, end)) => {
            assert(a + (b + rest) =~= (a + b) + rest);
        },
        Err(_) => {},
    }
}

/// Prepending distributes over composing method parse tails.
pub proof fn lemma_compose_methods_assoc(
    a: Seq<MethodModel>,
    b: Seq<MethodModel>,
    r: Result<(Seq<MethodModel>, int), DecodeError>,
)
    ensures
        compose_methods(a, compose_methods(b, r)) == compose_methods(a + b, r),
{
    match r {
        Ok((rest, end)) => {
            assert(a + (b + rest) =~= (a + b) + rest);
        },
        Err(_) => {},
    }
}

/// The aggregate class record: the decoded structure plus externally
/// supplied metadata (file path, byte size, content hash and a formatted
/// last-modified timestamp), all read-only once built.
pub struct ClassInfo {
    pub constant_pool: ConstantPool,
    pub file_path: String,
    pub size: usize,
    pub last_modified: String,
    pub minor_version: u16,
    pub major_version: u16,
    pub access_flags: u16,
    pub this_class: u16,
    pub super_class: u16,
    pub interfaces: Vec<u16>,
    pub fields: Vec<FieldInfo>,
    pub methods: Vec<MethodInfo>,
    pub attributes: Vec<AttributeInfo>,
    pub hash: String,
}

/// The mathematical model of the decoded part of a class record.
pub struct ClassModel {
    pub constant_pool: Seq<CpEntry>,
    pub minor_version: u16,
    pub major_version: u16,
    pub access_flags: u16,
    pub this_class: u16,
    pub super_class: u16,
    pub interfaces: Seq<u16>,
    pub fields: Seq<FieldModel>,
    pub methods: Seq<MethodModel>,
    pub attributes: Seq<AttrModel>,
}

impl ClassInfo {
    /// The record carries exactly the parsed model.
    pub open spec fn models(self, cm: ClassModel) -> bool {
        &&& self.constant_pool@ == cm.constant_pool
        &&& self.minor_version == cm.minor_version
        &&& self.major_version == cm.major_version
        &&& self.access_flags == cm.access_flags
        &&& self.this_class == cm.this_class
        &&& self.super_class == cm.super_class
        &&& self.interfaces@ == cm.interfaces
        &&& self.fields@.map_values(|f: FieldInfo| f@) == cm.fields
        &&& self.methods@.map_values(|m: MethodInfo| m@) == cm.methods
        &&& spec_attrs_view(self.attributes@) == cm.attributes
    }
}

/// What parsing a whole class file yields: the fixed header behind the
/// 4-byte magic marker, the constant pool, the class indices, then the
/// interface, field, method and attribute lists, each stage at the position
/// where the previous one stopped.
pub open spec fn spec_parse_class(s: Seq<u8>) -> Result<(ClassModel, int), DecodeError> {
    if 4 <= s.len() {
        if be_u32_at(s, 0) == MAGIC_NUMBER {
            if 8 <= s.len() {
                match spec_parse_pool(s, 8) {
                    Ok((pool, p1)) => {
                        if p1 + 6 <= s.len() {
                            match spec_parse_interfaces(s, p1 + 6) {
                                Ok((interfaces, p2)) => {
                                    match spec_parse_fields(pool, s, p2) {
                                        Ok((fields, p3)) => {
                                            match spec_parse_methods(pool, s, p3) {
                                                Ok((methods, p4)) => {
                                                    match spec_parse_attributes(pool, s, p4) {
                                                        Ok((attributes, p5)) => Ok(
                                                            (
                                                                ClassModel {
                                                                    constant_pool: pool,
                                                                    minor_version: be_u16_at(s, 4),
                                                                    major_version: be_u16_at(s, 6),
                                                                    access_flags: be_u16_at(s, p1),
                                                                    this_class: be_u16_at(
                                                                        s,
                                                                        p1 + 2,
                                                                    ),
                                                                    super_class: be_u16_at(
                                                                        s,
                                                                        p1 + 4,
                                                                    ),
                                                                    interfaces,
                                                                    fields,
                                                                    methods,
                                                                    attributes,
                                                                },
                                                                p5,
                                                            ),
                                                        ),
                                                        Err(e) => Err(e),
                                                    }
                                                },
                                                Err(e) => Err(e),
                                            }
                                        },
                                        Err(e) => Err(e),
                                    }
                                },
                                Err(e) => Err(e),
                            }
                        } else {
                            Err(DecodeError::TruncatedInput)
                        }
                    },
                    Err(e) => Err(e),
                }
            } else {
                Err(DecodeError::TruncatedInput)
            }
        } else {
            Err(DecodeError::BadMagic)
        }
    } else {
        Err(DecodeError::TruncatedInput)
    }
}

/// Law: an attribute whose resolved name lies outside the recognized set
/// is never fatal. Whenever its declared length lies within the buffer, it
/// parses as an opaque entry and the parse continues right after the
/// skipped bytes.
pub proof fn lemma_unknown_attribute_skipped(pool: Seq<CpEntry>, s: Seq<u8>, pos: int)
    requires
        0 <= pos,
        pos + 6 <= s.len(),
        spec_pool_string(pool, be_u16_at(s, pos)) matches Ok(name) && name != "Code"@ && name
            != "LineNumberTable"@ && name != "LocalVariableTable"@ && name != "SourceFile"@,
        pos + 6 + be_u32_at(s, pos + 2) <= s.len(),
    ensures
        spec_parse_attribute(pool, s, pos) == Ok::<(AttrModel, int), DecodeError>(
            (
                AttrModel::Unknown { attribute_name_index: be_u16_at(s, pos) },
                pos + 6 + be_u32_at(s, pos + 2),
            ),
        ),
{
}

/// Bytes below the cut are the same in the prefix.
proof fn lemma_be_prefix(t: Seq<u8>, n: int, p: int)
    requires
        0 <= p,
        0 <= n <= t.len(),
    ensures
        p + 2 <= n ==> be_u16_at(t.take(n), p) == be_u16_at(t, p),
        p + 4 <= n ==> be_u32_at(t.take(n), p) == be_u32_at(t, p),
{
}

/// A parsed pool entry body always ends at or past two bytes in and inside
/// the buffer.
proof fn lemma_item_advances(tag: u8, s: Seq<u8>, pos: int)
    requires
        0 <= pos,
        spec_parse_item(tag, s, pos) is Ok,
    ensures
        pos + 2 <= spec_parse_item(tag, s, pos)->Ok_0.1 <= s.len(),
{
}

/// A parsed run of pool slots never moves backwards and stays inside the
/// buffer.
proof fn lemma_items_advance(s: Seq<u8>, pos: int, i: int, n: int)
    requires
        0 <= pos <= s.len(),
        spec_parse_items(s, pos, i, n) is Ok,
    ensures
        pos <= spec_parse_items(s, pos, i, n)->Ok_0.1 <= s.len(),
    decreases n - i,
{
    if i >= n {
    } else {
        let tag = s[pos];
        let (e, pos2) = spec_parse_item(tag, s, pos + 1)->Ok_0;
        lemma_item_advances(tag, s, pos + 1);
        if tag == CT_LONG || tag == CT_DOUBLE {
            lemma_items_advance(s, pos2, i + 2, n);
        } else {
            lemma_items_advance(s, pos2, i + 1, n);
        }
    }
}

/// One stage of the truncation property: cutting the buffer to `n`
/// bytes leaves a pool entry parse unchanged when the entry ends at or
/// before the cut, and turns it into a TruncatedInput failure when the cut
/// lands inside the entry.
proof fn lemma_item_prefix(t: Seq<u8>, n: int, tag: u8, pos: int)
    requires
        0 <= pos <= n <= t.len(),
        spec_parse_item(tag, t, pos) is Ok,
    ensures
        spec_parse_item(tag, t.take(n), pos) == if spec_parse_item(tag, t, pos)->Ok_0.1 <= n {
            spec_parse_item(tag, t, pos)
        } else {
            Err::<(CpEntry, int), DecodeError>(DecodeError::TruncatedInput)
        },
{
    let s = t.take(n);
    lemma_be_prefix(t, n, pos);
    lemma_be_prefix(t, n, pos + 1);
    lemma_be_prefix(t, n, pos + 2);
    lemma_be_prefix(t, n, pos + 4);
    if tag == CT_UTF8 {
        if pos + 2 <= n {
            let l = be_u16_at(t, pos) as int;
            if pos + 2 + l <= n {
                assert(t.take(n).subrange(pos + 2, pos + 2 + l) =~= t.subrange(
                    pos + 2,
                    pos + 2 + l,
                ));
            }
        }
    }
}

/// Pool-slot stage of the truncation property.
proof fn lemma_items_prefix(t: Seq<u8>, n: int, pos: int, i: int, nn: int)
    requires
        0 <= pos <= n <= t.len(),
        spec_parse_items(t, pos, i, nn) is Ok,
    ensures
        spec_parse_items(t.take(n), pos, i, nn) == if spec_parse_items(t, pos, i, nn)->Ok_0.1
            <= n {
            spec_parse_items(t, pos, i, nn)
        } else {
            Err::<(Seq<CpEntry>, int), DecodeError>(DecodeError::TruncatedInput)
        },
    decreases nn - i,
{
    let s = t.take(n);
    if i >= nn {
    } else {
        let tag = t[pos];
        let (e, pos2) = spec_parse_item(tag, t, pos + 1)->Ok_0;
        lemma_item_advances(tag, t, pos + 1);
        if pos + 1 <= n {
            assert(s[pos] == t[pos]);
            lemma_item_prefix(t, n, tag, pos + 1);
            if pos2 <= n {
                if tag == CT_LONG || tag == CT_DOUBLE {
                    lemma_items_advance(t, pos2, i + 2, nn);
                    lemma_items_prefix(t, n, pos2, i + 2, nn);
                } else {
                    lemma_items_advance(t, pos2, i + 1, nn);
                    lemma_items_prefix(t, n, pos2, i + 1, nn);
                }
            } else {
                if tag == CT_LONG || tag == CT_DOUBLE {
                    lemma_items_advance(t, pos2, i + 2, nn);
                } else {
                    lemma_items_advance(t, pos2, i + 1, nn);
                }
            }
        } else {
            lemma_items_advance(t, pos2, i + (if tag == CT_LONG || tag == CT_DOUBLE { 2int } else { 1int }), nn);
        }
    }
}

/// Constant-pool stage of the truncation property.
proof fn lemma_pool_prefix(t: Seq<u8>, n: int, pos: int)
    requires
        0 <= pos <= n <= t.len(),
        spec_parse_pool(t, pos) is Ok,
    ensures
        spec_parse_pool(t.take(n), pos) == if spec_parse_pool(t, pos)->Ok_0.1 <= n {
            spec_parse_pool(t, pos)
        } else {
            Err::<(Seq<CpEntry>, int), DecodeError>(DecodeError::TruncatedInput)
        },
{
    lemma_be_prefix(t, n, pos);
    if pos + 2 <= n {
        let nn = be_u16_at(t, pos) as int;
        lemma_items_advance(t, pos + 2, 1, nn);
        lemma_items_prefix(t, n, pos + 2, 1, nn);
    } else {
        lemma_items_advance(t, pos + 2, 1, be_u16_at(t, pos) as int);
    }
}

/// Exception-table stage of the truncation property.
proof fn lemma_exception_table_prefix(t: Seq<u8>, n: int, pos: int)
    requires
        0 <= pos <= n <= t.len(),
        spec_parse_exception_table(t, pos) is Ok,
    ensures
        spec_parse_exception_table(t.take(n), pos) == if spec_parse_exception_table(
            t,
            pos,
        )->Ok_0.1 <= n {
            spec_parse_exception_table(t, pos)
        } else {
            Err::<(Seq<ExceptionTableEntry>, int), DecodeError>(DecodeError::TruncatedInput)
        },
{
    lemma_be_prefix(t, n, pos);
    if pos + 2 <= n {
        let c = be_u16_at(t, pos) as int;
        if pos + 2 + 8 * c <= n {
            assert forall|k: int| 0 <= k < c implies #[trigger] spec_exception_entry(
                t.take(n),
                pos + 2,
                k,
            ) == spec_exception_entry(t, pos + 2, k) by {
                lemma_be_prefix(t, n, pos + 2 + 8 * k);
                lemma_be_prefix(t, n, pos + 2 + 8 * k + 2);
                lemma_be_prefix(t, n, pos + 2 + 8 * k + 4);
                lemma_be_prefix(t, n, pos + 2 + 8 * k + 6);
            }
            assert(Seq::new(c as nat, |k: int| spec_exception_entry(t.take(n), pos + 2, k)) =~=
                Seq::new(c as nat, |k: int| spec_exception_entry(t, pos + 2, k)));
        }
    }
}

/// Line-number-table stage of the truncation property.
proof fn lemma_line_number_table_prefix(t: Seq<u8>, n: int, pos: int)
    requires
        0 <= pos <= n <= t.len(),
        spec_parse_line_number_table(t, pos) is Ok,
    ensures
        spec_parse_line_number_table(t.take(n), pos) == if spec_parse_line_number_table(
            t,
            pos,
        )->Ok_0.1 <= n {
            spec_parse_line_number_table(t, pos)
        } else {
            Err::<(Seq<LineNumberTableEntry>, int), DecodeError>(DecodeError::TruncatedInput)
        },
{
    lemma_be_prefix(t, n, pos);
    if pos + 2 <= n {
        let c = be_u16_at(t, pos) as int;
        if pos + 2 + 4 * c <= n {
            assert forall|k: int| 0 <= k < c implies #[trigger] spec_line_number_entry(
                t.take(n),
                pos + 2,
                k,
            ) == spec_line_number_entry(t, pos + 2, k) by {
                lemma_be_prefix(t, n, pos + 2 + 4 * k);
                lemma_be_prefix(t, n, pos + 2 + 4 * k + 2);
            }
            assert(Seq::new(c as nat, |k: int| spec_line_number_entry(t.take(n), pos + 2, k)) =~=
                Seq::new(c as nat, |k: int| spec_line_number_entry(t, pos + 2, k)));
        }
    }
}

/// Local-variable-table stage of the truncation property.
proof fn lemma_local_variable_table_prefix(t: Seq<u8>, n: int, pos: int)
    requires
        0 <= pos <= n <= t.len(),
        spec_parse_local_variable_table(t, pos) is Ok,
    ensures
        spec_parse_local_variable_table(t.take(n), pos) == if spec_parse_local_variable_table(
            t,
            pos,
        )->Ok_0.1 <= n {
            spec_parse_local_variable_table(t, pos)
        } else {
            Err::<(Seq<LocalVariableTableEnty>, int), DecodeError>(DecodeError::TruncatedInput)
        },
{
    lemma_be_prefix(t, n, pos);
    if pos + 2 <= n {
        let c = be_u16_at(t, pos) as int;
        if pos + 2 + 10 * c <= n {
            assert forall|k: int| 0 <= k < c implies #[trigger] spec_local_variable_entry(
                t.take(n),
                pos + 2,
                k,
            ) == spec_local_variable_entry(t, pos + 2, k) by {
                lemma_be_prefix(t, n, pos + 2 + 10 * k);
                lemma_be_prefix(t, n, pos + 2 + 10 * k + 2);
                lemma_be_prefix(t, n, pos + 2 + 10 * k + 4);
                lemma_be_prefix(t, n, pos + 2 + 10 * k + 6);
                lemma_be_prefix(t, n, pos + 2 + 10 * k + 8);
            }
            assert(Seq::new(c as nat, |k: int| spec_local_variable_entry(t.take(n), pos + 2, k))
                =~= Seq::new(c as nat, |k: int| spec_local_variable_entry(t, pos + 2, k)));
        }
    }
}

/// Single-attribute stage of the truncation property.
proof fn lemma_attribute_prefix(pool: Seq<CpEntry>, t: Seq<u8>, n: int, pos: int)
    requires
        0 <= pos <= n <= t.len(),
        spec_parse_attribute(pool, t, pos) is Ok,
    ensures
        spec_parse_attribute(pool, t.take(n), pos) == if spec_parse_attribute(
            pool,
            t,
            pos,
        )->Ok_0.1 <= n {
            spec_parse_attribute(pool, t, pos)
        } else {
            Err::<(AttrModel, int), DecodeError>(DecodeError::TruncatedInput)
        },
    decreases t.len() - pos, 0int,
{
    let s = t.take(n);
    assert(s.len() == n);
    lemma_attribute_advances(pool, t, pos);
    lemma_be_prefix(t, n, pos);
    lemma_be_prefix(t, n, pos + 2);
    if pos + 6 <= n {
        let name_index = be_u16_at(t, pos);
        let length = be_u32_at(t, pos + 2) as int;
        let body = pos + 6;
        let name = spec_pool_string(pool, name_index)->Ok_0;
        if name == "Code"@ {
            lemma_be_prefix(t, n, body);
            lemma_be_prefix(t, n, body + 2);
            lemma_be_prefix(t, n, body + 4);
            let end = spec_parse_attribute(pool, t, pos)->Ok_0.1;
            let code_len = be_u32_at(t, body + 4) as int;
            let (exceptions, pos3) = spec_parse_exception_table(t, body + 8 + code_len)->Ok_0;
            let pos4 = spec_parse_attributes(pool, t, pos3)->Ok_0.1;
            lemma_attributes_advance(pool, t, pos3);
            assert(pos3 >= body + 8 + code_len + 2);
            assert(end == pos4 && end >= pos3 + 2);
            if body + 8 <= n {
                if body + 8 + code_len <= n {
                    assert(t.take(n).subrange(body + 8, body + 8 + code_len) =~= t.subrange(
                        body + 8,
                        body + 8 + code_len,
                    ));
                    lemma_exception_table_prefix(t, n, body + 8 + code_len);
                    if pos3 <= n {
                        lemma_attributes_prefix(pool, t, n, pos3);
                        if pos4 <= n {
                            assert(spec_parse_attribute(pool, s, pos) == spec_parse_attribute(
                                pool,
                                t,
                                pos,
                            ));
                        } else {
                            assert(spec_parse_attribute(pool, s, pos) == Err::<
                                (AttrModel, int),
                                DecodeError,
                            >(DecodeError::TruncatedInput));
                            assert(end > n);
                        }
                    } else {
                        assert(spec_parse_attribute(pool, s, pos) == Err::<
                            (AttrModel, int),
                            DecodeError,
                        >(DecodeError::TruncatedInput));
                        assert(end > n);
                    }
                } else {
                    assert(spec_parse_attribute(pool, s, pos) == Err::<
                        (AttrModel, int),
                        DecodeError,
                    >(DecodeError::TruncatedInput));
                    assert(end > n);
                }
            } else {
                assert(spec_parse_attribute(pool, s, pos) == Err::<
                    (AttrModel, int),
                    DecodeError,
                >(DecodeError::TruncatedInput));
                assert(end > n);
            }
        } else if name == "LineNumberTable"@ {
            lemma_line_number_table_prefix(t, n, body);
        } else if name == "LocalVariableTable"@ {
            lemma_local_variable_table_prefix(t, n, body);
        } else if name == "SourceFile"@ {
            lemma_be_prefix(t, n, body);
        } else {
        }
    }
}

/// Attribute-run stage of the truncation property.
proof fn lemma_attr_items_prefix(pool: Seq<CpEntry>, t: Seq<u8>, n: int, pos: int, k: int)
    requires
        0 <= pos <= n <= t.len(),
        spec_parse_attr_items(pool, t, pos, k) is Ok,
    ensures
        spec_parse_attr_items(pool, t.take(n), pos, k) == if spec_parse_attr_items(
            pool,
            t,
            pos,
            k,
        )->Ok_0.1 <= n {
            spec_parse_attr_items(pool, t, pos, k)
        } else {
            Err::<(Seq<AttrModel>, int), DecodeError>(DecodeError::TruncatedInput)
        },
    decreases t.len() - pos, 2int, k,
{
    if k <= 0 {
    } else {
        let (a, pos2) = spec_parse_attribute(pool, t, pos)->Ok_0;
        lemma_attribute_advances(pool, t, pos);
        lemma_attribute_prefix(pool, t, n, pos);
        lemma_attr_items_advance(pool, t, pos2, k - 1);
        if pos2 <= n {
            lemma_attr_items_prefix(pool, t, n, pos2, k - 1);
        }
    }
}

/// Attribute-list stage of the truncation property.
proof fn lemma_attributes_prefix(pool: Seq<CpEntry>, t: Seq<u8>, n: int, pos: int)
    requires
        0 <= pos <= n <= t.len(),
        spec_parse_attributes(pool, t, pos) is Ok,
    ensures
        spec_parse_attributes(pool, t.take(n), pos) == if spec_parse_attributes(
            pool,
            t,
            pos,
        )->Ok_0.1 <= n {
            spec_parse_attributes(pool, t, pos)
        } else {
            Err::<(Seq<AttrModel>, int), DecodeError>(DecodeError::TruncatedInput)
        },
    decreases t.len() - pos, 1int, 0int,
{
    lemma_be_prefix(t, n, pos);
    if pos + 2 <= n {
        let k = be_u16_at(t, pos) as int;
        lemma_attr_items_advance(pool, t, pos + 2, k);
        lemma_attr_items_prefix(pool, t, n, pos + 2, k);
    } else {
        lemma_attr_items_advance(pool, t, pos + 2, be_u16_at(t, pos) as int);
    }
}

/// Interface-list stage of the truncation property.
proof fn lemma_interfaces_prefix(t: Seq<u8>, n: int, pos: int)
    requires
        0 <= pos <= n <= t.len(),
        spec_parse_interfaces(t, pos) is Ok,
    ensures
        spec_parse_interfaces(t.take(n), pos) == if spec_parse_interfaces(t, pos)->Ok_0.1 <= n {
            spec_parse_interfaces(t, pos)
        } else {
            Err::<(Seq<u16>, int), DecodeError>(DecodeError::TruncatedInput)
        },
{
    lemma_be_prefix(t, n, pos);
    if pos + 2 <= n {
        let c = be_u16_at(t, pos) as int;
        if pos + 2 + 2 * c <= n {
            assert forall|k: int| 0 <= k < c implies #[trigger] be_u16_at(
                t.take(n),
                pos + 2 + 2 * k,
            ) == be_u16_at(t, pos + 2 + 2 * k) by {
                lemma_be_prefix(t, n, pos + 2 + 2 * k);
            }
            assert(Seq::new(c as nat, |k: int| be_u16_at(t.take(n), pos + 2 + 2 * k)) =~=
                Seq::new(c as nat, |k: int| be_u16_at(t, pos + 2 + 2 * k)));
        }
    }
}

/// A parsed run of fields never moves backwards and stays inside the
/// buffer.
proof fn lemma_field_items_advance(pool: Seq<CpEntry>, s: Seq<u8>, pos: int, k: int)
    requires
        0 <= pos <= s.len(),
        spec_parse_field_items(pool, s, pos, k) is Ok,
    ensures
        pos <= spec_parse_field_items(pool, s, pos, k)->Ok_0.1 <= s.len(),
    decreases s.len() - pos, k,
{
    if k <= 0 {
    } else {
        let (f, pos2) = spec_parse_field(pool, s, pos)->Ok_0;
        lemma_field_items_advance(pool, s, pos2, k - 1);
    }
}

/// A parsed run of methods never moves backwards and stays inside the
/// buffer.
proof fn lemma_method_items_advance(pool: Seq<CpEntry>, s: Seq<u8>, pos: int, k: int)
    requires
        0 <= pos <= s.len(),
        spec_parse_method_items(pool, s, pos, k) is Ok,
    ensures
        pos <= spec_parse_method_items(pool, s, pos, k)->Ok_0.1 <= s.len(),
    decreases s.len() - pos, k,
{
    if k <= 0 {
    } else {
        let (m, pos2) = spec_parse_method(pool, s, pos)->Ok_0;
        lemma_method_items_advance(pool, s, pos2, k - 1);
    }
}

/// Single-field stage of the truncation property.
proof fn lemma_field_prefix(pool: Seq<CpEntry>, t: Seq<u8>, n: int, pos: int)
    requires
        0 <= pos <= n <= t.len(),
        spec_parse_field(pool, t, pos) is Ok,
    ensures
        spec_parse_field(pool, t.take(n), pos) == if spec_parse_field(pool, t, pos)->Ok_0.1
            <= n {
            spec_parse_field(pool, t, pos)
        } else {
            Err::<(FieldModel, int), DecodeError>(DecodeError::TruncatedInput)
        },
{
    let s = t.take(n);
    assert(s.len() == n);
    lemma_be_prefix(t, n, pos);
    lemma_be_prefix(t, n, pos + 2);
    lemma_be_prefix(t, n, pos + 4);
    lemma_attributes_advance(pool, t, pos + 6);
    if pos + 6 <= n {
        lemma_attributes_prefix(pool, t, n, pos + 6);
    }
}

/// Single-method stage of the truncation property.
proof fn lemma_method_prefix(pool: Seq<CpEntry>, t: Seq<u8>, n: int, pos: int)
    requires
        0 <= pos <= n <= t.len(),
        spec_parse_method(pool, t, pos) is Ok,
    ensures
        spec_parse_method(pool, t.take(n), pos) == if spec_parse_method(pool, t, pos)->Ok_0.1
            <= n {
            spec_parse_method(pool, t, pos)
        } else {
            Err::<(MethodModel, int), DecodeError>(DecodeError::TruncatedInput)
        },
{
    let s = t.take(n);
    assert(s.len() == n);
    lemma_be_prefix(t, n, pos);
    lemma_be_prefix(t, n, pos + 2);
    lemma_be_prefix(t, n, pos + 4);
    lemma_attributes_advance(pool, t, pos + 6);
    if pos + 6 <= n {
        lemma_attributes_prefix(pool, t, n, pos + 6);
    }
}

/// Field-run stage of the truncation property.
proof fn lemma_field_items_prefix(pool: Seq<CpEntry>, t: Seq<u8>, n: int, pos: int, k: int)
    requires
        0 <= pos <= n <= t.len(),
        spec_parse_field_items(pool, t, pos, k) is Ok,
    ensures
        spec_parse_field_items(pool, t.take(n), pos, k) == if spec_parse_field_items(
            pool,
            t,
            pos,
            k,
        )->Ok_0.1 <= n {
            spec_parse_field_items(pool, t, pos, k)
        } else {
            Err::<(Seq<FieldModel>, int), DecodeError>(DecodeError::TruncatedInput)
        },
    decreases t.len() - pos, k,
{
    if k <= 0 {
    } else {
        let (f, pos2) = spec_parse_field(pool, t, pos)->Ok_0;
        lemma_field_prefix(pool, t, n, pos);
        lemma_field_items_advance(pool, t, pos2, k - 1);
        if pos2 <= n {
            lemma_field_items_prefix(pool, t, n, pos2, k - 1);
        }
    }
}

/// Method-run stage of the truncation property.
proof fn lemma_method_items_prefix(pool: Seq<CpEntry>, t: Seq<u8>, n: int, pos: int, k: int)
    requires
        0 <= pos <= n <= t.len(),
        spec_parse_method_items(pool, t, pos, k) is Ok,
    ensures
        spec_parse_method_items(pool, t.take(n), pos, k) == if spec_parse_method_items(
            pool,
            t,
            pos,
            k,
        )->Ok_0.1 <= n {
            spec_parse_method_items(pool, t, pos, k)
        } else {
            Err::<(Seq<MethodModel>, int), DecodeError>(DecodeError::TruncatedInput)
        },
    decreases t.len() - pos, k,
{
    if k <= 0 {
    } else {
        let (m, pos2) = spec_parse_method(pool, t, pos)->Ok_0;
        lemma_method_prefix(pool, t, n, pos);
        lemma_method_items_advance(pool, t, pos2, k - 1);
        if pos2 <= n {
            lemma_method_items_prefix(pool, t, n, pos2, k - 1);
        }
    }
}

/// Field-list stage of the truncation property.
proof fn lemma_fields_prefix(pool: Seq<CpEntry>, t: Seq<u8>, n: int, pos: int)
    requires
        0 <= pos <= n <= t.len(),
        spec_parse_fields(pool, t, pos) is Ok,
    ensures
        spec_parse_fields(pool, t.take(n), pos) == if spec_parse_fields(pool, t, pos)->Ok_0.1
            <= n {
            spec_parse_fields(pool, t, pos)
        } else {
            Err::<(Seq<FieldModel>, int), DecodeError>(DecodeError::TruncatedInput)
        },
{
    lemma_be_prefix(t, n, pos);
    lemma_field_items_advance(pool, t, pos + 2, be_u16_at(t, pos) as int);
    if pos + 2 <= n {
        lemma_field_items_prefix(pool, t, n, pos + 2, be_u16_at(t, pos) as int);
    }
}

/// Method-list stage of the truncation property.
proof fn lemma_methods_prefix(pool: Seq<CpEntry>, t: Seq<u8>, n: int, pos: int)
    requires
        0 <= pos <= n <= t.len(),
        spec_parse_methods(pool, t, pos) is Ok,
    ensures
        spec_parse_methods(pool, t.take(n), pos) == if spec_parse_methods(pool, t, pos)->Ok_0.1
            <= n {
            spec_parse_methods(pool, t, pos)
        } else {
            Err::<(Seq<MethodModel>, int), DecodeError>(DecodeError::TruncatedInput)
        },
{
    lemma_be_prefix(t, n, pos);
    lemma_method_items_advance(pool, t, pos + 2, be_u16_at(t, pos) as int);
    if pos + 2 <= n {
        lemma_method_items_prefix(pool, t, n, pos + 2, be_u16_at(t, pos) as int);
    }
}

/// Law: decoding a truncated buffer fails with TruncatedInput. Cutting a
/// parseable class file anywhere before the bytes its parse consumed turns
/// the whole parse into a TruncatedInput failure; a cut at or past that
/// point leaves the parse unchanged. No input makes the decoder read out of
/// bounds: every byte access in the parse lies below a checked bound.
pub proof fn lemma_class_parse_prefix(t: Seq<u8>, n: int)
    requires
        0 <= n <= t.len(),
        spec_parse_class(t) is Ok,
    ensures
        spec_parse_class(t.take(n)) == if spec_parse_class(t)->Ok_0.1 <= n {
            spec_parse_class(t)
        } else {
            Err::<(ClassModel, int), DecodeError>(DecodeError::TruncatedInput)
        },
{
    let s = t.take(n);
    assert(s.len() == n);
    lemma_be_prefix(t, n, 0);
    lemma_be_prefix(t, n, 4);
    lemma_be_prefix(t, n, 6);
    let (pool, p1) = spec_parse_pool(t, 8)->Ok_0;
    let (interfaces, p2) = spec_parse_interfaces(t, p1 + 6)->Ok_0;
    let (fields, p3) = spec_parse_fields(pool, t, p2)->Ok_0;
    let (methods, p4) = spec_parse_methods(pool, t, p3)->Ok_0;
    let p5 = spec_parse_attributes(pool, t, p4)->Ok_0.1;
    lemma_items_advance(t, 10, 1, be_u16_at(t, 8) as int);
    assert(10 <= p1 <= t.len());
    lemma_be_prefix(t, n, p1);
    lemma_be_prefix(t, n, p1 + 2);
    lemma_be_prefix(t, n, p1 + 4);
    assert(p2 == p1 + 6 + 2 + 2 * (be_u16_at(t, p1 + 6) as int) && p2 <= t.len());
    lemma_field_items_advance(pool, t, p2 + 2, be_u16_at(t, p2) as int);
    assert(p2 + 2 <= p3 <= t.len());
    lemma_method_items_advance(pool, t, p3 + 2, be_u16_at(t, p3) as int);
    assert(p3 + 2 <= p4 <= t.len());
    lemma_attributes_advance(pool, t, p4);
    assert(p4 + 2 <= p5 <= t.len());
    if 8 <= n {
        lemma_pool_prefix(t, n, 8);
        if p1 <= n {
            if p1 + 6 <= n {
                lemma_interfaces_prefix(t, n, p1 + 6);
                if p2 <= n {
                    lemma_fields_prefix(pool, t, n, p2);
                    if p3 <= n {
                        lemma_methods_prefix(pool, t, n, p3);
                        if p4 <= n {
                            lemma_attributes_prefix(pool, t, n, p4);
                        }
                    }
                }
            }
        }
    }
}

/// Law: a decoded method always carries well-formed type tokens (the
/// grammar produced them) and a descriptor index that resolves to UTF8
/// text (the decoder resolved it to parse the descriptor).
pub proof fn lemma_parsed_method_wf(pool: Seq<CpEntry>, s: Seq<u8>, pos: int)
    requires
        spec_parse_method(pool, s, pos) is Ok,
    ensures
        ({
            let m = spec_parse_method(pool, s, pos)->Ok_0.0;
            &&& spec_wf_token(m.return_type)
            &&& forall|i: int| 0 <= i < m.args.len() ==> spec_wf_token(#[trigger] m.args[i])
            &&& spec_pool_string(pool, m.descriptor_index) is Ok
        }),
{
    let m = spec_parse_method(pool, s, pos)->Ok_0.0;
    let descriptor = spec_pool_string(pool, be_u16_at(s, pos + 4))->Ok_0;
    let ci = crate::descriptor_parser::spec_close_paren_index(descriptor)->Some_0;
    lemma_tokens_wf(descriptor.subrange(1, ci), m.args);
}

/// Law: every method of a decoded class carries well-formed type tokens
/// and a descriptor index that resolves to UTF8 text.
pub proof fn lemma_parsed_methods_wf(pool: Seq<CpEntry>, s: Seq<u8>, pos: int, k: int)
    requires
        spec_parse_method_items(pool, s, pos, k) is Ok,
    ensures
        ({
            let methods = spec_parse_method_items(pool, s, pos, k)->Ok_0.0;
            forall|j: int|
                0 <= j < methods.len() ==> {
                    let m = #[trigger] methods[j];
                    &&& spec_wf_token(m.return_type)
                    &&& forall|i: int| 0 <= i < m.args.len() ==> spec_wf_token(#[trigger] m.args[i])
                    &&& spec_pool_string(pool, m.descriptor_index) is Ok
                }
        }),
    decreases k,
{
    if k <= 0 {
    } else {
        let methods = spec_parse_method_items(pool, s, pos, k)->Ok_0.0;
        let (m, pos2) = spec_parse_method(pool, s, pos)->Ok_0;
        lemma_parsed_method_wf(pool, s, pos);
        let rest = spec_parse_method_items(pool, s, pos2, k - 1)->Ok_0.0;
        lemma_parsed_methods_wf(pool, s, pos2, k - 1);
        assert(methods == seq![m] + rest);
        assert forall|j: int| 0 <= j < methods.len() implies {
            let mm = #[trigger] methods[j];
            &&& spec_wf_token(mm.return_type)
            &&& forall|i: int| 0 <= i < mm.args.len() ==> spec_wf_token(#[trigger] mm.args[i])
            &&& spec_pool_string(pool, mm.descriptor_index) is Ok
        } by {
            if j == 0 {
                assert(methods[0] == m);
            } else {
                assert(methods[j] == rest[j - 1]);
            }
        }
    }
}

/// The top-level driver that decodes a class file from bytes.
pub struct ClassLoader {}

impl ClassLoader {
    /// Reads the body of one pool entry whose tag byte was already read.
    fn read_constant_pool_item(tag: u8, byte_array: &mut ByteArray) -> (r: Result<
        ConstantPoolItem,
        DecodeError,
    >)
        ensures
            final(byte_array).bytes@ == old(byte_array).bytes@,
            spec_parse_item(tag, old(byte_array).bytes@, old(byte_array).current as int)
                matches Ok(ep) ==> {
                &&& r matches Ok(item) && item@ == ep.0
                &&& final(byte_array).current == ep.1
            },
            spec_parse_item(tag, old(byte_array).bytes@, old(byte_array).current as int)
                matches Err(e) ==> r == Err::<ConstantPoolItem, DecodeError>(e),
    {
        if tag == CT_UTF8 {
            let size = match byte_array.read_u16() {
                Ok(v) => v,
                Err(e) => { return Err(e) },
            };
            let bytes = match byte_array.read_bytes(size as usize) {
                Ok(v) => v,
                Err(e) => { return Err(e) },
            };
            match decode_modified_utf8(bytes.as_slice()) {
                Some(utf8_string) => Ok(ConstantPoolItem::CPUTF8Info { utf8_string }),
                None => Err(DecodeError::MalformedUtf8),
            }
        } else if tag == CT_INTEGER {
            let raw = match byte_array.read_u32() {
                Ok(v) => v,
                Err(e) => { return Err(e) },
            };
            Ok(ConstantPoolItem::CPIntegerInfo { raw })
        } else if tag == CT_FLOAT {
            let raw = match byte_array.read_u32() {
                Ok(v) => v,
                Err(e) => { return Err(e) },
            };
            Ok(ConstantPoolItem::CPFloatInfo { raw })
        } else if tag == CT_LONG {
            let high_bytes = match byte_array.read_u32() {
                Ok(v) => v,
                Err(e) => { return Err(e) },
            };
            let low_bytes = match byte_array.read_u32() {
                Ok(v) => v,
                Err(e) => { return Err(e) },
            };
            Ok(ConstantPoolItem::CPLongInfo { high_bytes, low_bytes })
        } else if tag == CT_DOUBLE {
            let high_bytes = match byte_array.read_u32() {
                Ok(v) => v,
                Err(e) => { return Err(e) },
            };
            let low_bytes = match byte_array.read_u32() {
                Ok(v) => v,
                Err(e) => { return Err(e) },
            };
            Ok(ConstantPoolItem::CPDoubleInfo { high_bytes, low_bytes })
        } else if tag == CT_CLASS {
            let name_index = match byte_array.read_u16() {
                Ok(v) => v,
                Err(e) => { return Err(e) },
            };
            Ok(ConstantPoolItem::CPClassInfo { name_index })
        } else if tag == CT_STRING {
            let string_index = match byte_array.read_u16() {
                Ok(v) => v,
                Err(e) => { return Err(e) },
            };
            Ok(ConstantPoolItem::CPStringInfo { string_index })
        } else if tag == CT_FIELDREF {
            let class_index = match byte_array.read_u16() {
                Ok(v) => v,
                Err(e) => { return Err(e) },
            };
            let name_and_type_index = match byte_array.read_u16() {
                Ok(v) => v,
                Err(e) => { return Err(e) },
            };
            Ok(ConstantPoolItem::CPFieldRef { class_index, name_and_type_index })
        } else if tag == CT_METHODREF {
            let class_index = match byte_array.read_u16() {
                Ok(v) => v,
                Err(e) => { return Err(e) },
            };
            let name_and_type_index = match byte_array.read_u16() {
                Ok(v) => v,
                Err(e) => { return Err(e) },
            };
            Ok(ConstantPoolItem::CPMethodRef { class_index, name_and_type_index })
        } else if tag == CT_INTERFACEMETHOD {
            let class_index = match byte_array.read_u16() {
                Ok(v) => v,
                Err(e) => { return Err(e) },
            };
            let name_and_type_index = match byte_array.read_u16() {
                Ok(v) => v,
                Err(e) => { return Err(e) },
            };
            Ok(ConstantPoolItem::CPInterfaceMethodRef { class_index, name_and_type_index })
        } else if tag == CT_NAMEANDTYPE {
            let name_index = match byte_array.read_u16() {
                Ok(v) => v,
                Err(e) => { return Err(e) },
            };
            let descriptor_index = match byte_array.read_u16() {
                Ok(v) => v,
                Err(e) => { return Err(e) },
            };
            Ok(ConstantPoolItem::CPNameAndTypeInfo { name_index, descriptor_index })
        } else if tag == CT_METHODHANDLE {
            let reference_kind = match byte_array.read_u8() {
                Ok(v) => v,
                Err(e) => { return Err(e) },
            };
            let reference_index = match byte_array.read_u16() {
                Ok(v) => v,
                Err(e) => { return Err(e) },
            };
            Ok(ConstantPoolItem::CPMethodHandle { reference_kind, reference_index })
        } else if tag == CT_METHODTYPE {
            let descriptor_index = match byte_array.read_u16() {
                Ok(v) => v,
                Err(e) => { return Err(e) },
            };
            Ok(ConstantPoolItem::CPMethodType { descriptor_index })
        } else if tag == CT_INVOKEDYNAMIC {
            let bootstrap_method_attr_index = match byte_array.read_u16() {
                Ok(v) => v,
                Err(e) => { return Err(e) },
            };
            let name_and_type_index = match byte_array.read_u16() {
                Ok(v) => v,
                Err(e) => { return Err(e) },
            };
            Ok(
                ConstantPoolItem::CPInvokeDynamic {
                    bootstrap_method_attr_index,
                    name_and_type_index,
                },
            )
        } else {
            Err(DecodeError::UnsupportedConstantTag { tag })
        }
    }

    /// Reads the whole constant pool: the declared 16-bit count, then one
    /// tagged entry per remaining slot, Long and Double entries claiming an
    /// extra filler slot each.
    fn read_constant_pool(byte_array: &mut ByteArray) -> (r: Result<ConstantPool, DecodeError>)
        ensures
            final(byte_array).bytes@ == old(byte_array).bytes@,
            spec_parse_pool(old(byte_array).bytes@, old(byte_array).current as int)
                matches Ok(pe) ==> {
                &&& r matches Ok(pool) && pool@ == pe.0 && pool.wf() && count_fillers(pool@) == 1
                    + count_long_double(pool@)
                &&& final(byte_array).current == pe.1
            },
            spec_parse_pool(old(byte_array).bytes@, old(byte_array).current as int)
                matches Err(e) ==> r == Err::<ConstantPool, DecodeError>(e),
    {
        let ghost s = old(byte_array).bytes@;
        let ghost c0 = old(byte_array).current as int;
        let ghost v = |it: ConstantPoolItem| it@;
        let cp_count = match byte_array.read_u16() {
            Ok(c) => c,
            Err(e) => { return Err(e) },
        };
        let n = cp_count as usize;
        let mut constants: Vec<ConstantPoolItem> = Vec::new();
        constants.push(ConstantPoolItem::CPFiller);
        proof {
            assert(constants@.map_values(v) =~= seq![CpEntry::Filler]);
        }
        let mut i: usize = 1;
        while i < n
            invariant
                v == (|it: ConstantPoolItem| it@),
                byte_array.bytes@ == s,
                s == old(byte_array).bytes@,
                c0 == old(byte_array).current as int,
                0 <= c0 && c0 + 2 <= s.len(),
                cp_count == be_u16_at(s, c0),
                n == cp_count as usize,
                1 <= i,
                i <= n || n == 0,
                constants@.len() == i,
                spec_parse_pool(s, c0) == compose_items(
                    constants@.map_values(v),
                    spec_parse_items(s, byte_array.current as int, i as int, n as int),
                ),
            decreases n - i,
        {
            let ghost cur = byte_array.current as int;
            let ghost done = constants@.map_values(v);
            let tag = match byte_array.read_u8() {
                Ok(t) => t,
                Err(e) => {
                    proof {
                        assert(spec_parse_items(s, cur, i as int, n as int) == Err::<
                            (Seq<CpEntry>, int),
                            DecodeError,
                        >(DecodeError::TruncatedInput));
                    }
                    return Err(e);
                },
            };
            let item = match Self::read_constant_pool_item(tag, byte_array) {
                Ok(it) => it,
                Err(e) => {
                    proof {
                        assert(spec_parse_items(s, cur, i as int, n as int) == Err::<
                            (Seq<CpEntry>, int),
                            DecodeError,
                        >(e));
                    }
                    return Err(e);
                },
            };
            let wide = tag == CT_LONG || tag == CT_DOUBLE;
            constants.push(item);
            if wide {
                if i + 1 < n {
                    constants.push(ConstantPoolItem::CPFiller);
                    proof {
                        assert(constants@.map_values(v) =~= done + seq![
                            item@,
                            CpEntry::Filler,
                        ]);
                        lemma_compose_assoc(
                            done,
                            seq![item@, CpEntry::Filler],
                            spec_parse_items(s, byte_array.current as int, i + 2, n as int),
                        );
                    }
                    i = i + 2;
                } else {
                    proof {
                        assert(spec_parse_items(s, cur, i as int, n as int) == Err::<
                            (Seq<CpEntry>, int),
                            DecodeError,
                        >(DecodeError::TruncatedInput));
                    }
                    return Err(DecodeError::TruncatedInput);
                }
            } else {
                proof {
                    assert(constants@.map_values(v) =~= done + seq![item@]);
                    lemma_compose_assoc(
                        done,
                        seq![item@],
                        spec_parse_items(s, byte_array.current as int, i + 1, n as int),
                    );
                }
                i = i + 1;
            }
        }
        proof {
            let done = constants@.map_values(v);
            assert(spec_parse_items(s, byte_array.current as int, i as int, n as int) == Ok::<
                (Seq<CpEntry>, int),
                DecodeError,
            >((Seq::empty(), byte_array.current as int)));
            assert(done + Seq::<CpEntry>::empty() =~= done);
            lemma_pool_entry_count(s, c0);
        }
        Ok(ConstantPool { constants })
    }

    /// Reads the interface list: a 16-bit count and that many 16-bit pool
    /// indices.
    fn read_interfaces(byte_array: &mut ByteArray) -> (r: Result<Vec<u16>, DecodeError>)
        ensures
            final(byte_array).bytes@ == old(byte_array).bytes@,
            spec_parse_interfaces(old(byte_array).bytes@, old(byte_array).current as int)
                matches Ok(p) ==> {
                &&& r matches Ok(v) && v@ == p.0
                &&& final(byte_array).current == p.1
            },
            spec_parse_interfaces(old(byte_array).bytes@, old(byte_array).current as int)
                matches Err(e) ==> r == Err::<Vec<u16>, DecodeError>(e),
    {
        let ghost s = old(byte_array).bytes@;
        let ghost pos = old(byte_array).current as int;
        let count = match byte_array.read_u16() {
            Ok(v) => v,
            Err(e) => { return Err(e) },
        };
        let n = count as usize;
        let mut vec: Vec<u16> = Vec::new();
        let mut j: usize = 0;
        while j < n
            invariant
                byte_array.bytes@ == s,
                s == old(byte_array).bytes@,
                pos == old(byte_array).current as int,
                0 <= pos && pos + 2 <= s.len(),
                count == be_u16_at(s, pos),
                n == count as usize,
                j <= n,
                vec@.len() == j,
                byte_array.current as int == pos + 2 + 2 * j,
                pos + 2 + 2 * j <= s.len(),
                vec@ == Seq::new(j as nat, |k: int| be_u16_at(s, pos + 2 + 2 * k)),
            decreases n - j,
        {
            let item = match byte_array.read_u16() {
                Ok(v) => v,
                Err(e) => { return Err(e) },
            };
            vec.push(item);
            proof {
                assert(vec@ =~= Seq::new((j + 1) as nat, |k: int| be_u16_at(s, pos + 2 + 2 * k)));
            }
            j = j + 1;
        }
        Ok(vec)
    }

    /// Reads the field list: a 16-bit count, then per field its flags, name
    /// and descriptor indices and its attribute list.
    fn read_fields(byte_array: &mut ByteArray, constant_pool: &ConstantPool) -> (r: Result<
        Vec<FieldInfo>,
        DecodeError,
    >)
        ensures
            final(byte_array).bytes@ == old(byte_array).bytes@,
            spec_parse_fields(
                constant_pool@,
                old(byte_array).bytes@,
                old(byte_array).current as int,
            ) matches Ok(p) ==> {
                &&& r matches Ok(v) && v@.map_values(|f: FieldInfo| f@) == p.0
                &&& final(byte_array).current == p.1
            },
            spec_parse_fields(
                constant_pool@,
                old(byte_array).bytes@,
                old(byte_array).current as int,
            ) matches Err(e) ==> r == Err::<Vec<FieldInfo>, DecodeError>(e),
    {
        let ghost s = old(byte_array).bytes@;
        let ghost c0 = old(byte_array).current as int;
        let ghost pm = constant_pool@;
        let ghost vfn = |f: FieldInfo| f@;
        let count = match byte_array.read_u16() {
            Ok(v) => v,
            Err(e) => { return Err(e) },
        };
        let n = count as usize;
        let mut vec: Vec<FieldInfo> = Vec::new();
        let mut j: usize = 0;
        while j < n
            invariant
                vfn == (|f: FieldInfo| f@),
                byte_array.bytes@ == s,
                s == old(byte_array).bytes@,
                c0 == old(byte_array).current as int,
                pm == constant_pool@,
                0 <= c0 && c0 + 2 <= s.len(),
                count == be_u16_at(s, c0),
                n == count as usize,
                j <= n,
                vec@.len() == j,
                c0 + 2 <= byte_array.current as int <= s.len(),
                spec_parse_fields(pm, s, c0) == compose_fields(
                    vec@.map_values(vfn),
                    spec_parse_field_items(pm, s, byte_array.current as int, (n - j) as int),
                ),
            decreases n - j,
        {
            let ghost cur = byte_array.current as int;
            let ghost done = vec@.map_values(vfn);
            let ghost k = (n - j) as int;
            let access_flags = match byte_array.read_u16() {
                Ok(v) => v,
                Err(e) => { return Err(e) },
            };
            let name_index = match byte_array.read_u16() {
                Ok(v) => v,
                Err(e) => { return Err(e) },
            };
            let descriptor_index = match byte_array.read_u16() {
                Ok(v) => v,
                Err(e) => { return Err(e) },
            };
            let ghost pos_attrs = byte_array.current as int;
            let attributes = match AttributeParser::read_attributes(byte_array, constant_pool) {
                Ok(v) => v,
                Err(e) => { return Err(e) },
            };
            proof {
                lemma_attributes_advance(pm, s, pos_attrs);
            }
            let field = FieldInfo { access_flags, name_index, descriptor_index, attributes };
            vec.push(field);
            proof {
                let f_model = field@;
                assert(spec_parse_field(pm, s, cur) == Ok::<(FieldModel, int), DecodeError>(
                    (f_model, byte_array.current as int),
                ));
                assert(spec_parse_field_items(pm, s, cur, k) == compose_fields(
                    seq![f_model],
                    spec_parse_field_items(pm, s, byte_array.current as int, k - 1),
                ));
                assert(vec@.map_values(vfn) =~= done + seq![f_model]);
                lemma_compose_fields_assoc(
                    done,
                    seq![f_model],
                    spec_parse_field_items(pm, s, byte_array.current as int, k - 1),
                );
            }
            j = j + 1;
        }
        proof {
            assert(spec_parse_field_items(pm, s, byte_array.current as int, (n - j) as int)
                == Ok::<(Seq<FieldModel>, int), DecodeError>(
                (Seq::empty(), byte_array.current as int),
            ));
            assert(vec@.map_values(vfn) + Seq::<FieldModel>::empty() =~= vec@.map_values(vfn));
        }
        Ok(vec)
    }

    /// Reads the method list: a 16-bit count, then per method its flags,
    /// name and descriptor indices and its attribute list, resolving and
    /// parsing the descriptor string through the constant pool.
    fn read_methods(byte_array: &mut ByteArray, constant_pool: &ConstantPool) -> (r: Result<
        Vec<MethodInfo>,
        DecodeError,
    >)
        ensures
            final(byte_array).bytes@ == old(byte_array).bytes@,
            spec_parse_methods(
                constant_pool@,
                old(byte_array).bytes@,
                old(byte_array).current as int,
            ) matches Ok(p) ==> {
                &&& r matches Ok(v) && v@.map_values(|m: MethodInfo| m@) == p.0
                &&& final(byte_array).current == p.1
            },
            spec_parse_methods(
                constant_pool@,
                old(byte_array).bytes@,
                old(byte_array).current as int,
            ) matches Err(e) ==> r == Err::<Vec<MethodInfo>, DecodeError>(e),
    {
        let ghost s = old(byte_array).bytes@;
        let ghost c0 = old(byte_array).current as int;
        let ghost pm = constant_pool@;
        let ghost vfn = |m: MethodInfo| m@;
        let count = match byte_array.read_u16() {
            Ok(v) => v,
            Err(e) => { return Err(e) },
        };
        let n = count as usize;
        let mut vec: Vec<MethodInfo> = Vec::new();
        let mut j: usize = 0;
        while j < n
            invariant
                vfn == (|m: MethodInfo| m@),
                byte_array.bytes@ == s,
                s == old(byte_array).bytes@,
                c0 == old(byte_array).current as int,
                pm == constant_pool@,
                0 <= c0 && c0 + 2 <= s.len(),
                count == be_u16_at(s, c0),
                n == count as usize,
                j <= n,
                vec@.len() == j,
                c0 + 2 <= byte_array.current as int <= s.len(),
                spec_parse_methods(pm, s, c0) == compose_methods(
                    vec@.map_values(vfn),
                    spec_parse_method_items(pm, s, byte_array.current as int, (n - j) as int),
                ),
            decreases n - j,
        {
            let ghost cur = byte_array.current as int;
            let ghost done = vec@.map_values(vfn);
            let ghost k = (n - j) as int;
            let access_flags = match byte_array.read_u16() {
                Ok(v) => v,
                Err(e) => { return Err(e) },
            };
            let name_index = match byte_array.read_u16() {
                Ok(v) => v,
                Err(e) => { return Err(e) },
            };
            let descriptor_index = match byte_array.read_u16() {
                Ok(v) => v,
                Err(e) => { return Err(e) },
            };
            let ghost pos_attrs = byte_array.current as int;
            let attributes = match AttributeParser::read_attributes(byte_array, constant_pool) {
                Ok(v) => v,
                Err(e) => { return Err(e) },
            };
            proof {
                lemma_attributes_advance(pm, s, pos_attrs);
            }
            let descriptor_string = match constant_pool.get_string(descriptor_index) {
                Ok(d) => d,
                Err(e) => { return Err(e) },
            };
            let descriptor = match parse_descriptor(descriptor_string.clone()) {
                Ok(d) => d,
                Err(e) => { return Err(e) },
            };
            let method_flags: MethodFlags = MethodFlags::from_bits_truncate(access_flags);
            let method = MethodInfo {
                access_flags: method_flags,
                descriptor_index,
                attributes,
                return_type: descriptor.return_type,
                args: descriptor.args,
                name_index,
            };
            vec.push(method);
            proof {
                let m_model = method@;
                assert(spec_parse_method(pm, s, cur) == Ok::<(MethodModel, int), DecodeError>(
                    (m_model, byte_array.current as int),
                ));
                assert(spec_parse_method_items(pm, s, cur, k) == compose_methods(
                    seq![m_model],
                    spec_parse_method_items(pm, s, byte_array.current as int, k - 1),
                ));
                assert(vec@.map_values(vfn) =~= done + seq![m_model]);
                lemma_compose_methods_assoc(
                    done,
                    seq![m_model],
                    spec_parse_method_items(pm, s, byte_array.current as int, k - 1),
                );
            }
            j = j + 1;
        }
        proof {
            assert(spec_parse_method_items(pm, s, byte_array.current as int, (n - j) as int)
                == Ok::<(Seq<MethodModel>, int), DecodeError>(
                (Seq::empty(), byte_array.current as int),
            ));
            assert(vec@.map_values(vfn) + Seq::<MethodModel>::empty() =~= vec@.map_values(vfn));
        }
        Ok(vec)
    }

    /// Decodes a whole class file from its raw bytes and merges in the
    /// externally supplied metadata: the file path, a formatted
    /// last-modified timestamp and a hex content hash. Every decode error
    /// surfaces here as a typed result; no input panics.
    pub fn load_class(
        bytes: Vec<u8>,
        file_path: String,
        last_modified: String,
        hash: String,
    ) -> (r: Result<ClassInfo, DecodeError>)
        ensures
            spec_parse_class(bytes@) matches Ok(p) ==> r matches Ok(ci) && {
                &&& ci.models(p.0)
                &&& ci.constant_pool.wf()
                &&& ci.file_path@ == file_path@
                &&& ci.size == bytes@.len()
                &&& ci.last_modified@ == last_modified@
                &&& ci.hash@ == hash@
            },
            spec_parse_class(bytes@) matches Err(e) ==> r == Err::<ClassInfo, DecodeError>(e),
    {
        let ghost s = bytes@;
        let mut byte_array = ByteArray::new(bytes, 0);
        let size = byte_array.len();
        let magic = match byte_array.read_u32() {
            Ok(v) => v,
            Err(e) => { return Err(e) },
        };
        if magic != MAGIC_NUMBER {
            return Err(DecodeError::BadMagic);
        }
        let minor_version = match byte_array.read_u16() {
            Ok(v) => v,
            Err(e) => { return Err(e) },
        };
        let major_version = match byte_array.read_u16() {
            Ok(v) => v,
            Err(e) => { return Err(e) },
        };
        let constant_pool = match Self::read_constant_pool(&mut byte_array) {
            Ok(v) => v,
            Err(e) => { return Err(e) },
        };
        let access_flags = match byte_array.read_u16() {
            Ok(v) => v,
            Err(e) => { return Err(e) },
        };
        let this_class = match byte_array.read_u16() {
            Ok(v) => v,
            Err(e) => { return Err(e) },
        };
        let super_class = match byte_array.read_u16() {
            Ok(v) => v,
            Err(e) => { return Err(e) },
        };
        let interfaces = match Self::read_interfaces(&mut byte_array) {
            Ok(v) => v,
            Err(e) => { return Err(e) },
        };
        let fields = match Self::read_fields(&mut byte_array, &constant_pool) {
            Ok(v) => v,
            Err(e) => { return Err(e) },
        };
        let methods = match Self::read_methods(&mut byte_array, &constant_pool) {
            Ok(v) => v,
            Err(e) => { return Err(e) },
        };
        let attributes = match AttributeParser::read_attributes(&mut byte_array, &constant_pool) {
            Ok(v) => v,
            Err(e) => { return Err(e) },
        };
        Ok(
            ClassInfo {
                constant_pool,
                file_path,
                size,
                last_modified,
                minor_version,
                major_version,
                access_flags,
                this_class,
                super_class,
                interfaces,
                fields,
                methods,
                attributes,
                hash,
            },
        )
    }
}

} // verus!
