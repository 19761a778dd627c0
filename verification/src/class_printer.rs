//! Renderer for decoded class records, in the layout of the reference
//! `javap` tool.
//!
//! Rendering is pure: every function builds a `String` whose exact contents
//! the `spec_render_*` functions state, and is proved to succeed on any
//! internally consistent record. Printing the text is the caller's business.

use vstd::prelude::*;
use vstd::string::StrSliceExecFns;
use vstd::string::StringExecFns;

use crate::class_loader::AttributeInfo;
use crate::class_loader::ClassInfo;
use crate::class_loader::ClassModel;
use crate::class_loader::ConstantPool;
use crate::class_loader::ConstantPoolItem;
use crate::class_loader::CpEntry;
use crate::class_loader::MethodFlags;
use crate::class_loader::MethodInfo;
use crate::class_loader::spec_flag_rows;
use crate::class_loader::spec_keyword;
use crate::descriptor_parser::lemma_type_len_array;
use crate::descriptor_parser::spec_type_len;
use crate::descriptor_parser::spec_wf_token;
use crate::error::DecodeError;

verus! {

/// Relies on String::push: appends exactly the one character.
#[verifier::external_body]
fn push_char(s: &mut String, c: char)
    ensures
        final(s)@ == old(s)@.push(c),
{
    s.push(c);
}

/// The character for one decimal digit.
pub open spec fn spec_digit(d: int) -> char {
    if d == 0 {
        '0'
    } else if d == 1 {
        '1'
    } else if d == 2 {
        '2'
    } else if d == 3 {
        '3'
    } else if d == 4 {
        '4'
    } else if d == 5 {
        '5'
    } else if d == 6 {
        '6'
    } else if d == 7 {
        '7'
    } else if d == 8 {
        '8'
    } else {
        '9'
    }
}

/// The decimal digit string of a non-negative number, most significant
/// digit first.
pub open spec fn spec_dec(n: int) -> Seq<char>
    recommends
        n >= 0,
    decreases n,
{
    if n < 10 {
        seq![spec_digit(n)]
    } else {
        spec_dec(n / 10).push(spec_digit(n % 10))
    }
}

/// The character for one decimal digit.
fn digit_char(d: u64) -> (r: char)
    requires
        d < 10,
    ensures
        r == spec_digit(d as int),
{
    if d == 0 {
        '0'
    } else if d == 1 {
        '1'
    } else if d == 2 {
        '2'
    } else if d == 3 {
        '3'
    } else if d == 4 {
        '4'
    } else if d == 5 {
        '5'
    } else if d == 6 {
        '6'
    } else if d == 7 {
        '7'
    } else if d == 8 {
        '8'
    } else {
        '9'
    }
}

/// The digit characters of `ds` taken last to first.
pub open spec fn spec_rev_digits(ds: Seq<u64>) -> Seq<char> {
    Seq::new(ds.len(), |i: int| spec_digit(ds[ds.len() - 1 - i] as int))
}

/// Renders a number in decimal.
pub fn u64_to_string(n: u64) -> (r: String)
    ensures
        r@ == spec_dec(n as int),
{
    let mut digits: Vec<u64> = Vec::new();
    let mut m = n;
    while m >= 10
        invariant
            spec_dec(n as int) == spec_dec(m as int) + spec_rev_digits(digits@),
            forall|k: int| 0 <= k < digits@.len() ==> #[trigger] digits@[k] < 10,
        decreases m,
    {
        let ghost digits_before = digits@;
        let d = m % 10;
        digits.push(d);
        proof {
            assert(spec_rev_digits(digits@) =~= seq![spec_digit(d as int)] + spec_rev_digits(
                digits_before,
            ));
            assert(spec_dec(m as int) == spec_dec(m as int / 10).push(
                spec_digit(m as int % 10),
            ));
            assert(spec_dec(m as int / 10).push(spec_digit(m as int % 10)) =~= spec_dec(
                m as int / 10,
            ) + seq![spec_digit(d as int)]);
            assert(spec_dec(m as int / 10) + (seq![spec_digit(d as int)] + spec_rev_digits(
                digits_before,
            )) =~= (spec_dec(m as int / 10) + seq![spec_digit(d as int)]) + spec_rev_digits(
                digits_before,
            ));
        }
        m = m / 10;
    }
    let ghost digits_before = digits@;
    digits.push(m);
    proof {
        assert(spec_rev_digits(digits@) =~= seq![spec_digit(m as int)] + spec_rev_digits(
            digits_before,
        ));
        assert(spec_dec(m as int) == seq![spec_digit(m as int)]);
        assert(seq![spec_digit(m as int)] + spec_rev_digits(digits_before) =~= spec_rev_digits(
            digits@,
        ));
    }
    let mut out = String::new();
    let total = digits.len();
    let mut done: usize = 0;
    while done < total
        invariant
            total == digits@.len(),
            done <= total,
            forall|k: int| 0 <= k < digits@.len() ==> #[trigger] digits@[k] < 10,
            spec_dec(n as int) == spec_rev_digits(digits@),
            out@ == spec_rev_digits(digits@).take(done as int),
        decreases total - done,
    {
        let d = digits[total - 1 - done];
        push_char(&mut out, digit_char(d));
        done = done + 1;
        proof {
            assert(out@ =~= spec_rev_digits(digits@).take(done as int));
        }
    }
    proof {
        assert(spec_rev_digits(digits@).take(total as int) =~= spec_rev_digits(digits@));
    }
    out
}

/// `n` spaces (none when `n` is not positive).
pub open spec fn spec_spaces(n: int) -> Seq<char>
    decreases n,
{
    if n <= 0 {
        Seq::empty()
    } else {
        spec_spaces(n - 1).push(' ')
    }
}

/// Pads with trailing spaces to at least `width` characters.
pub fn pad_right(s: String, width: usize) -> (r: String)
    ensures
        r@ == s@ + spec_spaces(width - s@.len()),
{
    let ghost orig = s@;
    let mut out = s;
    let mut len = out.as_str().unicode_len();
    proof {
        assert(out@ =~= orig + spec_spaces(0));
    }
    while len < width
        invariant
            len == out@.len(),
            len >= orig.len(),
            len == orig.len() || len <= width,
            out@ == orig + spec_spaces(len - orig.len()),
        decreases width - len,
    {
        push_char(&mut out, ' ');
        len = len + 1;
        proof {
            assert(out@ =~= orig + spec_spaces(len - orig.len()));
        }
    }
    proof {
        if orig.len() >= width {
            assert(out@ =~= orig + spec_spaces(width - orig.len()));
        }
    }
    out
}

/// Pads with leading spaces to at least `width` characters.
pub fn pad_left(s: String, width: usize) -> (r: String)
    ensures
        r@ == spec_spaces(width - s@.len()) + s@,
{
    let len = s.as_str().unicode_len();
    let mut out = String::new();
    if len < width {
        let target = width - len;
        let mut k: usize = 0;
        proof {
            assert(out@ =~= spec_spaces(0));
        }
        while k < target
            invariant
                k <= target,
                out@ == spec_spaces(k as int),
            decreases target - k,
        {
            push_char(&mut out, ' ');
            k = k + 1;
            proof {
                assert(out@ =~= spec_spaces(k as int));
            }
        }
    }
    out.append(s.as_str());
    proof {
        if s@.len() >= width {
            assert(Seq::<char>::empty() =~= spec_spaces(width - s@.len()));
            assert(spec_spaces(width - s@.len()) + s@ =~= out@);
        }
    }
    out
}

/// The keyword a primitive type code renders as.
pub open spec fn spec_char_type(c: char) -> Seq<char> {
    if c == 'V' {
        "void"@
    } else if c == 'B' {
        "byte"@
    } else if c == 'C' {
        "char"@
    } else if c == 'D' {
        "double"@
    } else if c == 'F' {
        "float"@
    } else if c == 'I' {
        "int"@
    } else if c == 'J' {
        "long"@
    } else if c == 'S' {
        "short"@
    } else if c == 'Z' {
        "boolean"@
    } else {
        "unknown"@
    }
}

/// The class name with the internal `/` package separators replaced by `.`.
pub open spec fn spec_dots(s: Seq<char>) -> Seq<char> {
    s.map_values(
        |c: char|
            if c == '/' {
                '.'
            } else {
                c
            },
    )
}

/// `n` trailing `[]` pairs.
pub open spec fn spec_brackets(n: int) -> Seq<char>
    decreases n,
{
    if n <= 0 {
        Seq::empty()
    } else {
        spec_brackets(n - 1) + "[]"@
    }
}

/// The external (source-like) form of an internal type token: primitive
/// codes as keywords, class references with dots, one `[]` per array
/// dimension.
pub open spec fn spec_ext_type(t: Seq<char>) -> Seq<char>
    decreases t.len(),
{
    if t.len() == 0 {
        Seq::empty()
    } else if t[0] == '[' {
        spec_ext_type(t.drop_first()) + "[]"@
    } else if t[0] == 'L' {
        if t.len() >= 2 {
            spec_dots(t.subrange(1, t.len() - 1))
        } else {
            Seq::empty()
        }
    } else {
        spec_char_type(t[0])
    }
}

/// Leading `[` marks move to trailing `[]` pairs around the base type.
proof fn lemma_ext_array(t: Seq<char>, m: int)
    requires
        0 <= m <= t.len(),
        forall|k: int| 0 <= k < m ==> t[k] == '[',
    ensures
        spec_ext_type(t) == spec_ext_type(t.skip(m)) + spec_brackets(m),
    decreases m,
{
    if m == 0 {
        assert(t.skip(0) =~= t);
        assert(spec_ext_type(t) + spec_brackets(0) =~= spec_ext_type(t));
    } else {
        assert(t[0] == '[');
        assert(t.drop_first() =~= t.skip(1));
        lemma_ext_array(t.skip(1), m - 1);
        assert(forall|k: int| 0 <= k < m - 1 ==> t.skip(1)[k] == t[k + 1] && t[k + 1] == '[');
        assert(t.skip(1).skip(m - 1) =~= t.skip(m));
        assert((spec_ext_type(t.skip(m)) + spec_brackets(m - 1)) + "[]"@ =~= spec_ext_type(
            t.skip(m),
        ) + (spec_brackets(m - 1) + "[]"@));
    }
}

/// Renders decoded class records as `javap`-style text.
pub struct ClassPrinter {}

impl ClassPrinter {
    /// The keyword a primitive type code renders as.
    pub fn char_to_type(c: char) -> (r: &'static str)
        ensures
            r@ == spec_char_type(c),
    {
        if c == 'V' {
            "void"
        } else if c == 'B' {
            "byte"
        } else if c == 'C' {
            "char"
        } else if c == 'D' {
            "double"
        } else if c == 'F' {
            "float"
        } else if c == 'I' {
            "int"
        } else if c == 'J' {
            "long"
        } else if c == 'S' {
            "short"
        } else if c == 'Z' {
            "boolean"
        } else {
            "unknown"
        }
    }

    /// Converts an internal type token to its external (source-like) form.
    pub fn get_as_external_type(type_str: &str) -> (r: String)
        ensures
            spec_wf_token(type_str@) ==> r@ == spec_ext_type(type_str@),
    {
        let ghost t = type_str@;
        let len = type_str.unicode_len();
        let mut dims: usize = 0;
        while dims < len && type_str.get_char(dims) == '['
            invariant
                t == type_str@,
                len == t.len(),
                dims <= len,
                forall|k: int| 0 <= k < dims ==> t[k] == '[',
            decreases len - dims,
        {
            dims = dims + 1;
        }
        proof {
            lemma_type_len_array(t, dims as int);
            assert(t.skip(dims as int).len() == len - dims);
        }
        let mut buffer = String::new();
        if dims == len {
            proof {
                if spec_wf_token(t) {
                    assert(spec_type_len(t.skip(dims as int)) is None);
                }
            }
            return buffer;
        }
        let c = type_str.get_char(dims);
        proof {
            assert(t.skip(dims as int)[0] == t[dims as int]);
        }
        if c == 'L' {
            let stop = len - 1;
            let mut i2 = dims + 1;
            proof {
                assert(buffer@ =~= spec_dots(t.subrange(dims + 1, dims + 1)));
            }
            while i2 < stop
                invariant
                    t == type_str@,
                    len == t.len(),
                    stop == len - 1,
                    dims + 1 <= i2 <= len,
                    i2 <= stop || i2 == dims + 1,
                    buffer@ == spec_dots(t.subrange(dims + 1, i2 as int)),
                decreases stop - i2,
            {
                let ch = type_str.get_char(i2);
                if ch == '/' {
                    push_char(&mut buffer, '.');
                } else {
                    push_char(&mut buffer, ch);
                }
                i2 = i2 + 1;
                proof {
                    assert(buffer@ =~= spec_dots(t.subrange(dims + 1, i2 as int)));
                }
            }
        } else {
            let kw = Self::char_to_type(c);
            buffer.append(kw);
            proof {
                assert(buffer@ =~= spec_char_type(c));
            }
        }
        let ghost base = buffer@;
        let mut d: usize = 0;
        while d < dims
            invariant
                t == type_str@,
                d <= dims,
                buffer@ == base + spec_brackets(d as int),
            decreases dims - d,
        {
            buffer.append("[]");
            d = d + 1;
            proof {
                assert(buffer@ =~= base + spec_brackets(d as int));
            }
        }
        proof {
            if spec_wf_token(t) {
                lemma_ext_array(t, dims as int);
                let u = t.skip(dims as int);
                assert(spec_type_len(u) == Some((len - dims) as int));
                if c == 'L' {
                    crate::descriptor_parser::lemma_semi_index_props(u);
                    match crate::descriptor_parser::spec_semi_index(u) {
                        Some(si) => {
                            assert(si == len - dims - 1);
                            assert(u[0] == 'L');
                            assert(u.len() >= 2);
                            assert(u.subrange(1, u.len() - 1) =~= t.subrange(
                                dims + 1,
                                len - 1,
                            ));
                            assert(base == spec_ext_type(u));
                        },
                        None => {
                            assert(false);
                        },
                    }
                } else {
                    assert(len - dims == 1);
                    assert(base == spec_ext_type(u));
                }
            }
        }
        buffer
    }
}


/// The payload of a successful string lookup; rendering fails before this
/// falls back to empty.
pub open spec fn spec_ok_str(r: Result<Seq<char>, DecodeError>) -> Seq<char> {
    match r {
        Ok(s) => s,
        Err(_) => Seq::empty(),
    }
}

/// `s` padded with trailing spaces to at least `width` characters.
pub open spec fn spec_pad_right(s: Seq<char>, width: int) -> Seq<char> {
    s + spec_spaces(width - s.len())
}

/// `s` padded with leading spaces to at least `width` characters.
pub open spec fn spec_pad_left(s: Seq<char>, width: int) -> Seq<char> {
    spec_spaces(width - s.len()) + s
}

/// The `#N` notation for a pool index.
pub open spec fn spec_num_ref(i: int) -> Seq<char> {
    "#"@ + spec_dec(i)
}

/// The class name that the class entry at `idx` points to.
pub open spec fn spec_class_name_of(pool: ConstantPool, idx: u16) -> Seq<char> {
    match pool.spec_get_class_info(idx) {
        Ok(ni) => spec_ok_str(pool.spec_get_string(ni)),
        Err(_) => Seq::empty(),
    }
}

/// The payload of a Method-ref, Field-ref or Interface-method-ref line: the
/// two indices, then a comment resolving them through both levels of
/// indirection to the owning class name and the member name and descriptor.
pub open spec fn spec_ref_payload(
    pool: ConstantPool,
    label: Seq<char>,
    class_index: u16,
    name_and_type_index: u16,
) -> Seq<char> {
    let member = match pool.spec_get_name_and_type(name_and_type_index) {
        Ok(nt) => "\""@ + spec_ok_str(pool.spec_get_string(nt.0)) + "\""@ + spec_ok_str(
            pool.spec_get_string(nt.1),
        ),
        Err(_) => Seq::empty(),
    };
    spec_pad_right(label, 15) + " "@ + spec_pad_right(
        spec_num_ref(class_index as int) + "."@ + spec_num_ref(name_and_type_index as int),
        15,
    ) + " // "@ + spec_class_name_of(pool, class_index) + "."@ + member
}

/// The payload of one constant-pool line, by entry kind. Numeric entries
/// show their kind label alone.
pub open spec fn spec_cp_payload(pool: ConstantPool, e: CpEntry) -> Seq<char> {
    match e {
        CpEntry::Utf8 { text } => spec_pad_right("Utf8"@, 15) + " "@ + text,
        CpEntry::MethodRef { class_index, name_and_type_index } => spec_ref_payload(
            pool,
            "Methodref"@,
            class_index,
            name_and_type_index,
        ),
        CpEntry::FieldRef { class_index, name_and_type_index } => spec_ref_payload(
            pool,
            "Fieldref"@,
            class_index,
            name_and_type_index,
        ),
        CpEntry::InterfaceMethodRef { class_index, name_and_type_index } => spec_ref_payload(
            pool,
            "InterfaceMethodref"@,
            class_index,
            name_and_type_index,
        ),
        CpEntry::Class { name_index } => spec_pad_right("Class"@, 15) + " "@ + spec_pad_right(
            spec_num_ref(name_index as int),
            15,
        ) + " // "@ + spec_ok_str(pool.spec_get_string(name_index)),
        CpEntry::StringRef { string_index } => spec_pad_right("String"@, 15) + " "@
            + spec_pad_right(spec_num_ref(string_index as int), 15) + " // "@ + spec_ok_str(
            pool.spec_get_string(string_index),
        ),
        CpEntry::NameAndType { name_index, descriptor_index } => spec_pad_right(
            "NameAndType"@,
            15,
        ) + " "@ + spec_pad_right(
            spec_num_ref(name_index as int) + ":"@ + spec_num_ref(descriptor_index as int),
            15,
        ) + " // "@ + "\""@ + spec_ok_str(pool.spec_get_string(name_index)) + "\""@ + ":"@
            + spec_ok_str(pool.spec_get_string(descriptor_index)),
        CpEntry::Integer { .. } => "Integer"@,
        CpEntry::Float { .. } => "Float"@,
        CpEntry::Long { .. } => "Long"@,
        CpEntry::Double { .. } => "Double"@,
        CpEntry::MethodHandle { reference_kind, reference_index } => spec_pad_right(
            "MethodHandle"@,
            15,
        ) + " "@ + spec_dec(reference_kind as int) + ":"@ + spec_num_ref(reference_index as int),
        CpEntry::MethodType { descriptor_index } => spec_pad_right("MethodType"@, 15) + " "@
            + spec_num_ref(descriptor_index as int),
        CpEntry::InvokeDynamic { bootstrap_method_attr_index, name_and_type_index } =>
            spec_pad_right("InvokeDynamic"@, 15) + " "@ + spec_num_ref(
            bootstrap_method_attr_index as int,
        ) + ":"@ + spec_num_ref(name_and_type_index as int),
        CpEntry::Filler => Seq::empty(),
    }
}

/// One full constant-pool line: the right-aligned `#N` slot number, then
/// the payload.
pub open spec fn spec_render_cp_line(pool: ConstantPool, i: int) -> Seq<char> {
    spec_pad_left(spec_num_ref(i), 4) + " = "@ + spec_cp_payload(pool, pool@[i]) + "\n"@
}

/// The pool listing from slot `i` on: one line per non-filler slot.
pub open spec fn spec_render_pool_lines(pool: ConstantPool, i: int) -> Seq<char>
    decreases pool@.len() - i,
{
    if i < 0 || i >= pool@.len() {
        Seq::empty()
    } else if pool@[i] is Filler {
        spec_render_pool_lines(pool, i + 1)
    } else {
        spec_render_cp_line(pool, i) + spec_render_pool_lines(pool, i + 1)
    }
}

/// The full constant-pool listing.
pub open spec fn spec_render_pool(pool: ConstantPool) -> Seq<char> {
    "Constant pool:\n"@ + spec_render_pool_lines(pool, 1)
}

/// The `#N` notation for a pool index.
fn num_ref(i: u64) -> (r: String)
    ensures
        r@ == spec_num_ref(i as int),
{
    let mut out = String::from_str("#");
    out.append(u64_to_string(i).as_str());
    out
}

impl ClassPrinter {
    /// Renders the payload of a symbolic member reference, resolving both
    /// of its indices to their names.
    fn render_ref_payload(
        constant_pool: &ConstantPool,
        label: &'static str,
        class_index: u16,
        name_and_type_index: u16,
    ) -> (r: Result<String, DecodeError>)
        ensures
            r matches Ok(out) ==> out@ == spec_ref_payload(
                *constant_pool,
                label@,
                class_index,
                name_and_type_index,
            ),
            constant_pool.ref_resolvable(class_index, name_and_type_index) ==> r is Ok,
    {
        let class_name_index = match constant_pool.get_class_info(class_index) {
            Ok(v) => v,
            Err(e) => { return Err(e) },
        };
        let class_name = match constant_pool.get_string(class_name_index) {
            Ok(v) => v,
            Err(e) => { return Err(e) },
        };
        let nt = match constant_pool.get_name_and_type(name_and_type_index) {
            Ok(v) => v,
            Err(e) => { return Err(e) },
        };
        let member_name = match constant_pool.get_string(nt.0) {
            Ok(v) => v,
            Err(e) => { return Err(e) },
        };
        let member_descriptor = match constant_pool.get_string(nt.1) {
            Ok(v) => v,
            Err(e) => { return Err(e) },
        };
        let mut indices = num_ref(class_index as u64);
        indices.append(".");
        indices.append(num_ref(name_and_type_index as u64).as_str());
        let mut out = pad_right(String::from_str(label), 15);
        out.append(" ");
        out.append(pad_right(indices, 15).as_str());
        out.append(" // ");
        out.append(class_name.as_str());
        out.append(".");
        out.append("\"");
        out.append(member_name.as_str());
        out.append("\"");
        out.append(member_descriptor.as_str());
        proof {
            assert(out@ =~= spec_ref_payload(
                *constant_pool,
                label@,
                class_index,
                name_and_type_index,
            ));
        }
        Ok(out)
    }

    /// Renders the full line for the pool entry in slot `i`.
    fn render_cp_line(constant_pool: &ConstantPool, i: usize) -> (r: Result<String, DecodeError>)
        requires
            i < constant_pool.constants@.len(),
        ensures
            r matches Ok(out) ==> out@ == spec_render_cp_line(*constant_pool, i as int),
            constant_pool.entry_resolvable(constant_pool@[i as int]) ==> r is Ok,
    {
        proof {
            assert(constant_pool@[i as int] == constant_pool.constants@[i as int]@);
        }
        let payload = match &constant_pool.constants[i] {
            ConstantPoolItem::CPUTF8Info { utf8_string } => {
                let mut p = pad_right(String::from_str("Utf8"), 15);
                p.append(" ");
                p.append(utf8_string.as_str());
                p
            },
            ConstantPoolItem::CPMethodRef { class_index, name_and_type_index } => {
                match Self::render_ref_payload(
                    constant_pool,
                    "Methodref",
                    *class_index,
                    *name_and_type_index,
                ) {
                    Ok(p) => p,
                    Err(e) => { return Err(e) },
                }
            },
            ConstantPoolItem::CPFieldRef { class_index, name_and_type_index } => {
                match Self::render_ref_payload(
                    constant_pool,
                    "Fieldref",
                    *class_index,
                    *name_and_type_index,
                ) {
                    Ok(p) => p,
                    Err(e) => { return Err(e) },
                }
            },
            ConstantPoolItem::CPInterfaceMethodRef { class_index, name_and_type_index } => {
                match Self::render_ref_payload(
                    constant_pool,
                    "InterfaceMethodref",
                    *class_index,
                    *name_and_type_index,
                ) {
                    Ok(p) => p,
                    Err(e) => { return Err(e) },
                }
            },
            ConstantPoolItem::CPClassInfo { name_index } => {
                let name = match constant_pool.get_string(*name_index) {
                    Ok(v) => v,
                    Err(e) => { return Err(e) },
                };
                let mut p = pad_right(String::from_str("Class"), 15);
                p.append(" ");
                p.append(pad_right(num_ref(*name_index as u64), 15).as_str());
                p.append(" // ");
                p.append(name.as_str());
                p
            },
            ConstantPoolItem::CPStringInfo { string_index } => {
                let text = match constant_pool.get_string(*string_index) {
                    Ok(v) => v,
                    Err(e) => { return Err(e) },
                };
                let mut p = pad_right(String::from_str("String"), 15);
                p.append(" ");
                p.append(pad_right(num_ref(*string_index as u64), 15).as_str());
                p.append(" // ");
                p.append(text.as_str());
                p
            },
            ConstantPoolItem::CPNameAndTypeInfo { name_index, descriptor_index } => {
                let name = match constant_pool.get_string(*name_index) {
                    Ok(v) => v,
                    Err(e) => { return Err(e) },
                };
                let descriptor = match constant_pool.get_string(*descriptor_index) {
                    Ok(v) => v,
                    Err(e) => { return Err(e) },
                };
                let mut indices = num_ref(*name_index as u64);
                indices.append(":");
                indices.append(num_ref(*descriptor_index as u64).as_str());
                let mut p = pad_right(String::from_str("NameAndType"), 15);
                p.append(" ");
                p.append(pad_right(indices, 15).as_str());
                p.append(" // ");
                p.append("\"");
                p.append(name.as_str());
                p.append("\"");
                p.append(":");
                p.append(descriptor.as_str());
                p
            },
            ConstantPoolItem::CPIntegerInfo { .. } => String::from_str("Integer"),
            ConstantPoolItem::CPFloatInfo { .. } => String::from_str("Float"),
            ConstantPoolItem::CPLongInfo { .. } => String::from_str("Long"),
            ConstantPoolItem::CPDoubleInfo { .. } => String::from_str("Double"),
            ConstantPoolItem::CPMethodHandle { reference_kind, reference_index } => {
                let mut p = pad_right(String::from_str("MethodHandle"), 15);
                p.append(" ");
                p.append(u64_to_string(*reference_kind as u64).as_str());
                p.append(":");
                p.append(num_ref(*reference_index as u64).as_str());
                p
            },
            ConstantPoolItem::CPMethodType { descriptor_index } => {
                let mut p = pad_right(String::from_str("MethodType"), 15);
                p.append(" ");
                p.append(num_ref(*descriptor_index as u64).as_str());
                p
            },
            ConstantPoolItem::CPInvokeDynamic { bootstrap_method_attr_index, name_and_type_index }
                => {
                let mut p = pad_right(String::from_str("InvokeDynamic"), 15);
                p.append(" ");
                p.append(num_ref(*bootstrap_method_attr_index as u64).as_str());
                p.append(":");
                p.append(num_ref(*name_and_type_index as u64).as_str());
                p
            },
            ConstantPoolItem::CPFiller => String::new(),
        };
        let mut line = pad_left(num_ref(i as u64), 4);
        line.append(" = ");
        line.append(payload.as_str());
        line.append("\n");
        proof {
            assert(line@ =~= spec_render_cp_line(*constant_pool, i as int));
        }
        Ok(line)
    }

    /// Renders the full constant-pool listing: one line per non-filler
    /// slot, numbered by its 1-based slot index. Succeeds on every
    /// internally consistent pool.
    pub fn print_constant_pool(constant_pool: &ConstantPool) -> (r: Result<String, DecodeError>)
        ensures
            r matches Ok(out) ==> out@ == spec_render_pool(*constant_pool),
            constant_pool.resolvable() ==> r is Ok,
    {
        let mut out = String::from_str("Constant pool:\n");
        let n = constant_pool.constants.len();
        let mut i: usize = 1;
        while i < n
            invariant
                n == constant_pool.constants@.len(),
                1 <= i,
                i <= n || i == 1,
                spec_render_pool(*constant_pool) == out@ + spec_render_pool_lines(
                    *constant_pool,
                    i as int,
                ),
            decreases n - i,
        {
            let skip_entry = match &constant_pool.constants[i] {
                ConstantPoolItem::CPFiller => true,
                _ => false,
            };
            proof {
                assert(constant_pool@[i as int] == constant_pool.constants@[i as int]@);
            }
            if !skip_entry {
                let line = match Self::render_cp_line(constant_pool, i) {
                    Ok(l) => l,
                    Err(e) => { return Err(e) },
                };
                let ghost before = out@;
                out.append(line.as_str());
                proof {
                    assert(before + (spec_render_cp_line(*constant_pool, i as int)
                        + spec_render_pool_lines(*constant_pool, i + 1)) =~= (before + line@)
                        + spec_render_pool_lines(*constant_pool, i + 1));
                }
            }
            i = i + 1;
        }
        Ok(out)
    }
}


/// The keywords of the set flags, each followed by one space.
pub open spec fn spec_keywords_str(rows: Seq<(Seq<char>, u16)>) -> Seq<char>
    decreases rows.len(),
{
    if rows.len() == 0 {
        Seq::empty()
    } else {
        spec_keyword(rows[0].1) + " "@ + spec_keywords_str(rows.drop_first())
    }
}

/// The flag names after the first one, each preceded by a comma.
pub open spec fn spec_flag_names_rest(rows: Seq<(Seq<char>, u16)>) -> Seq<char>
    decreases rows.len(),
{
    if rows.len() == 0 {
        Seq::empty()
    } else {
        ", "@ + rows[0].0 + spec_flag_names_rest(rows.drop_first())
    }
}

/// The flag names joined with commas.
pub open spec fn spec_flag_names_str(rows: Seq<(Seq<char>, u16)>) -> Seq<char> {
    if rows.len() == 0 {
        Seq::empty()
    } else {
        rows[0].0 + spec_flag_names_rest(rows.drop_first())
    }
}

/// The external argument types after the first one, each preceded by a
/// comma.
pub open spec fn spec_args_rest(args: Seq<Seq<char>>) -> Seq<char>
    decreases args.len(),
{
    if args.len() == 0 {
        Seq::empty()
    } else {
        ", "@ + spec_ext_type(args[0]) + spec_args_rest(args.drop_first())
    }
}

/// The external argument types joined with commas.
pub open spec fn spec_args_str(args: Seq<Seq<char>>) -> Seq<char> {
    if args.len() == 0 {
        Seq::empty()
    } else {
        spec_ext_type(args[0]) + spec_args_rest(args.drop_first())
    }
}

/// Every lookup the method renderer makes resolves, and the method's type
/// tokens are well formed.
pub open spec fn spec_method_renderable(pool: ConstantPool, m: MethodInfo) -> bool {
    &&& pool.spec_get_string(m.name_index) is Ok
    &&& pool.spec_get_string(m.descriptor_index) is Ok
    &&& spec_wf_token(m.return_type@)
    &&& forall|i: int| 0 <= i < m.args@.len() ==> spec_wf_token((#[trigger] m.args@[i])@)
}

/// One rendered method: its flag keywords, external return type (dropped
/// for a constructor, whose name is the class's own), name, external
/// argument list, then its raw descriptor and flag names as sub-lines.
pub open spec fn spec_render_method(pool: ConstantPool, m: MethodInfo, class_name: Seq<char>) -> Seq<
    char,
> {
    let is_ctor = pool.spec_get_string(m.name_index) == Ok::<Seq<char>, DecodeError>("<init>"@);
    let name = if is_ctor {
        class_name
    } else {
        spec_ok_str(pool.spec_get_string(m.name_index))
    };
    let ret = if is_ctor {
        Seq::<char>::empty()
    } else {
        spec_ext_type(m.return_type@)
    };
    let ret2 = if ret.len() > 0 {
        ret + " "@
    } else {
        ret
    };
    let rows = spec_flag_rows(m.access_flags.bits);
    "  "@ + spec_keywords_str(rows) + ret2 + name + "("@ + spec_args_str(
        m.args@.map_values(|t: String| t@),
    ) + "):\n"@ + "    descriptor: "@ + spec_ok_str(pool.spec_get_string(m.descriptor_index))
        + "\n"@ + "    flags: "@ + spec_flag_names_str(rows) + "\n"@
}

/// The rendered method listing, in order.
pub open spec fn spec_render_methods(
    pool: ConstantPool,
    methods: Seq<MethodInfo>,
    class_name: Seq<char>,
) -> Seq<char>
    decreases methods.len(),
{
    if methods.len() == 0 {
        Seq::empty()
    } else {
        spec_render_method(pool, methods[0], class_name) + spec_render_methods(
            pool,
            methods.drop_first(),
            class_name,
        )
    }
}

/// Every method of the list is renderable.
pub open spec fn spec_methods_renderable(pool: ConstantPool, methods: Seq<MethodInfo>) -> bool {
    forall|i: int| 0 <= i < methods.len() ==> spec_method_renderable(pool, #[trigger] methods[i])
}

impl ClassPrinter {
    /// Renders one method. Succeeds whenever the method's lookups resolve
    /// and its tokens are well formed.
    pub fn print_method(
        method: &MethodInfo,
        constant_pool: &ConstantPool,
        class_name: &str,
    ) -> (r: Result<String, DecodeError>)
        ensures
            spec_method_renderable(*constant_pool, *method) ==> (r matches Ok(out) && out@
                == spec_render_method(*constant_pool, *method, class_name@)),
    {
        let is_ctor = method.is_constructor(constant_pool);
        let name_string: String = if is_ctor {
            class_name.to_owned()
        } else {
            match method.get_name(constant_pool) {
                Ok(n) => n.clone(),
                Err(e) => { return Err(e) },
            }
        };
        let ghost argseq = method.args@.map_values(|t: String| t@);
        let mut args_str = String::new();
        let total = method.args.len();
        let mut number: usize = 0;
        while number < total
            invariant
                total == method.args@.len(),
                argseq == method.args@.map_values(|t: String| t@),
                number <= total,
                number == 0 ==> args_str@ == Seq::<char>::empty(),
                spec_method_renderable(*constant_pool, *method) && number >= 1 ==> spec_args_str(
                    argseq,
                ) == args_str@ + spec_args_rest(argseq.skip(number as int)),
            decreases total - number,
        {
            let ext = Self::get_as_external_type(method.args[number].as_str());
            let ghost before = args_str@;
            if number != 0 {
                args_str.append(", ");
            }
            args_str.append(ext.as_str());
            proof {
                if spec_method_renderable(*constant_pool, *method) {
                    assert(argseq[number as int] == method.args@[number as int]@);
                    assert(spec_wf_token(argseq[number as int]));
                    assert(ext@ == spec_ext_type(argseq[number as int]));
                    assert(argseq.skip(number as int)[0] == argseq[number as int]);
                    assert(argseq.skip(number as int).drop_first() =~= argseq.skip(
                        number + 1,
                    ));
                    if number == 0 {
                        assert(spec_args_str(argseq) == spec_ext_type(argseq[0])
                            + spec_args_rest(argseq.drop_first()));
                        assert(argseq.drop_first() =~= argseq.skip(1));
                        assert(args_str@ == ext@);
                    } else {
                        assert(spec_args_rest(argseq.skip(number as int)) == ", "@
                            + spec_ext_type(argseq[number as int]) + spec_args_rest(
                            argseq.skip(number + 1),
                        ));
                        assert(before + (", "@ + spec_ext_type(argseq[number as int])
                            + spec_args_rest(argseq.skip(number + 1))) =~= ((before + ", "@)
                            + spec_ext_type(argseq[number as int])) + spec_args_rest(
                            argseq.skip(number + 1),
                        ));
                        assert(args_str@ =~= (before + ", "@) + ext@);
                    }
                }
            }
            number = number + 1;
        }
        proof {
            if spec_method_renderable(*constant_pool, *method) {
                if total == 0 {
                    assert(spec_args_str(argseq) =~= args_str@);
                } else {
                    assert(spec_args_rest(argseq.skip(total as int)) == Seq::<char>::empty());
                    assert(args_str@ + Seq::<char>::empty() =~= args_str@);
                }
            }
        }
        let rows = method.access_flags.iter_names();
        let ghost rows_model = spec_flag_rows(method.access_flags.bits);
        let mut keywords = String::new();
        let mut flags_str = String::new();
        let rtot = rows.len();
        proof {
            assert(rows_model.skip(0) =~= rows_model);
            assert(Seq::<char>::empty() + spec_keywords_str(rows_model) =~= spec_keywords_str(
                rows_model,
            ));
        }
        let mut idx: usize = 0;
        while idx < rtot
            invariant
                rtot == rows@.len(),
                rows@.map_values(|p: (&'static str, MethodFlags)| (p.0@, p.1.bits)) == rows_model,
                rows_model == spec_flag_rows(method.access_flags.bits),
                idx <= rtot,
                spec_keywords_str(rows_model) == keywords@ + spec_keywords_str(
                    rows_model.skip(idx as int),
                ),
                idx == 0 ==> flags_str@ == Seq::<char>::empty(),
                idx >= 1 ==> spec_flag_names_str(rows_model) == flags_str@
                    + spec_flag_names_rest(rows_model.skip(idx as int)),
            decreases rtot - idx,
        {
            let row = rows[idx];
            let ghost kw_before = keywords@;
            let ghost fl_before = flags_str@;
            keywords.append(row.1.as_keyword());
            keywords.append(" ");
            if idx != 0 {
                flags_str.append(", ");
            }
            flags_str.append(row.0);
            proof {
                assert(rows_model[idx as int] == (rows@.map_values(
                    |p: (&'static str, MethodFlags)| (p.0@, p.1.bits),
                ))[idx as int]);
                assert(rows_model[idx as int] == (row.0@, row.1.bits));
                assert(rows_model.skip(idx as int)[0] == rows_model[idx as int]);
                assert(rows_model.skip(idx as int).drop_first() =~= rows_model.skip(idx + 1));
                assert(spec_keywords_str(rows_model.skip(idx as int)) == spec_keyword(
                    row.1.bits,
                ) + " "@ + spec_keywords_str(rows_model.skip(idx + 1)));
                assert(kw_before + (spec_keyword(row.1.bits) + " "@ + spec_keywords_str(
                    rows_model.skip(idx + 1),
                )) =~= ((kw_before + spec_keyword(row.1.bits)) + " "@) + spec_keywords_str(
                    rows_model.skip(idx + 1),
                ));
                assert(keywords@ =~= (kw_before + spec_keyword(row.1.bits)) + " "@);
                if idx == 0 {
                    assert(spec_flag_names_str(rows_model) == rows_model[0].0
                        + spec_flag_names_rest(rows_model.drop_first()));
                    assert(rows_model.drop_first() =~= rows_model.skip(1));
                    assert(flags_str@ == row.0@);
                } else {
                    assert(spec_flag_names_rest(rows_model.skip(idx as int)) == ", "@
                        + rows_model[idx as int].0 + spec_flag_names_rest(
                        rows_model.skip(idx + 1),
                    ));
                    assert(fl_before + (", "@ + row.0@ + spec_flag_names_rest(
                        rows_model.skip(idx + 1),
                    )) =~= ((fl_before + ", "@) + row.0@) + spec_flag_names_rest(
                        rows_model.skip(idx + 1),
                    ));
                    assert(flags_str@ =~= (fl_before + ", "@) + row.0@);
                }
            }
            idx = idx + 1;
        }
        proof {
            assert(spec_keywords_str(rows_model.skip(rtot as int)) == Seq::<char>::empty());
            assert(keywords@ + Seq::<char>::empty() =~= keywords@);
            if rtot == 0 {
                assert(spec_flag_names_str(rows_model) =~= flags_str@);
            } else {
                assert(spec_flag_names_rest(rows_model.skip(rtot as int)) == Seq::<
                    char,
                >::empty());
                assert(flags_str@ + Seq::<char>::empty() =~= flags_str@);
            }
        }
        let mut out = String::from_str("  ");
        out.append(keywords.as_str());
        if !is_ctor {
            let ret_ext = Self::get_as_external_type(method.return_type.as_str());
            let ret_len = ret_ext.as_str().unicode_len();
            if ret_len > 0 {
                out.append(ret_ext.as_str());
                out.append(" ");
            }
        }
        out.append(name_string.as_str());
        out.append("(");
        out.append(args_str.as_str());
        out.append("):\n");
        out.append("    descriptor: ");
        let descriptor = match constant_pool.get_string(method.descriptor_index) {
            Ok(d) => d,
            Err(e) => { return Err(e) },
        };
        out.append(descriptor.as_str());
        out.append("\n");
        out.append("    flags: ");
        out.append(flags_str.as_str());
        out.append("\n");
        proof {
            if spec_method_renderable(*constant_pool, *method) {
                assert(out@ =~= spec_render_method(*constant_pool, *method, class_name@));
            }
        }
        Ok(out)
    }

    /// Renders the whole method listing of a class record.
    pub fn print_methods(class_info: &ClassInfo, class_name: &str) -> (r: Result<
        String,
        DecodeError,
    >)
        ensures
            spec_methods_renderable(class_info.constant_pool, class_info.methods@) ==> (r
                matches Ok(out) && out@ == spec_render_methods(
                class_info.constant_pool,
                class_info.methods@,
                class_name@,
            )),
    {
        let ghost methods = class_info.methods@;
        let mut out = String::new();
        let total = class_info.methods.len();
        proof {
            assert(methods.skip(0) =~= methods);
            assert(Seq::<char>::empty() + spec_render_methods(
                class_info.constant_pool,
                methods,
                class_name@,
            ) =~= spec_render_methods(class_info.constant_pool, methods, class_name@));
        }
        let mut idx: usize = 0;
        while idx < total
            invariant
                methods == class_info.methods@,
                total == methods.len(),
                idx <= total,
                spec_methods_renderable(class_info.constant_pool, methods) ==> spec_render_methods(
                    class_info.constant_pool,
                    methods,
                    class_name@,
                ) == out@ + spec_render_methods(
                    class_info.constant_pool,
                    methods.skip(idx as int),
                    class_name@,
                ),
            decreases total - idx,
        {
            let text = match Self::print_method(
                &class_info.methods[idx],
                &class_info.constant_pool,
                class_name,
            ) {
                Ok(t) => t,
                Err(e) => { return Err(e) },
            };
            let ghost before = out@;
            out.append(text.as_str());
            proof {
                if spec_methods_renderable(class_info.constant_pool, methods) {
                    assert(methods.skip(idx as int)[0] == methods[idx as int]);
                    assert(methods.skip(idx as int).drop_first() =~= methods.skip(idx + 1));
                    assert(spec_render_methods(
                        class_info.constant_pool,
                        methods.skip(idx as int),
                        class_name@,
                    ) == spec_render_method(
                        class_info.constant_pool,
                        methods[idx as int],
                        class_name@,
                    ) + spec_render_methods(
                        class_info.constant_pool,
                        methods.skip(idx + 1),
                        class_name@,
                    ));
                    assert(before + (spec_render_method(
                        class_info.constant_pool,
                        methods[idx as int],
                        class_name@,
                    ) + spec_render_methods(
                        class_info.constant_pool,
                        methods.skip(idx + 1),
                        class_name@,
                    )) =~= (before + text@) + spec_render_methods(
                        class_info.constant_pool,
                        methods.skip(idx + 1),
                        class_name@,
                    ));
                }
            }
            idx = idx + 1;
        }
        proof {
            if spec_methods_renderable(class_info.constant_pool, methods) {
                assert(spec_render_methods(
                    class_info.constant_pool,
                    methods.skip(total as int),
                    class_name@,
                ) == Seq::<char>::empty());
                assert(out@ + Seq::<char>::empty() =~= out@);
            }
        }
        Ok(out)
    }
}


/// The class name that the record's own class entry points to.
pub open spec fn spec_this_class_name(ci: ClassInfo) -> Seq<char> {
    spec_class_name_of(ci.constant_pool, ci.this_class)
}

/// The `Compiled from` lines for the SourceFile attributes from position
/// `i` on.
pub open spec fn spec_compiled_lines(ci: ClassInfo, i: int) -> Seq<char>
    decreases ci.attributes@.len() - i,
{
    if i < 0 || i >= ci.attributes@.len() {
        Seq::empty()
    } else {
        match ci.attributes@[i] {
            AttributeInfo::ATSourceFile { source_file_index } => "  Compiled from \""@
                + spec_ok_str(ci.constant_pool.spec_get_string(source_file_index)) + "\"\n"@
                + spec_compiled_lines(ci, i + 1),
            _ => spec_compiled_lines(ci, i + 1),
        }
    }
}

/// The header block: path, formatted timestamp, byte size and hash, all
/// supplied by the caller that loaded the record.
pub open spec fn spec_header_block(ci: ClassInfo) -> Seq<char> {
    "Classfile "@ + ci.file_path@ + "\n"@ + "  Last modified "@ + ci.last_modified@ + "; size "@
        + spec_dec(ci.size as int) + " bytes\n"@ + "  SHA-256 checksum "@ + ci.hash@ + "\n"@
}

/// The class declaration block: the resolved class name, versions, class
/// indices and the list-length summary.
pub open spec fn spec_decl_block(ci: ClassInfo, name: Seq<char>) -> Seq<char> {
    "class "@ + name + "\n"@ + "  minor version: "@ + spec_dec(ci.minor_version as int) + "\n"@
        + "  major version: "@ + spec_dec(ci.major_version as int) + "\n"@ + "  this_class: "@
        + spec_num_ref(ci.this_class as int) + "\n"@ + "  super_class: "@ + spec_num_ref(
        ci.super_class as int,
    ) + "\n"@ + "  interfaces: "@ + spec_dec(ci.interfaces@.len() as int) + ", fields: "@
        + spec_dec(ci.fields@.len() as int) + ", methods: "@ + spec_dec(ci.methods@.len() as int)
        + ", attributes: "@ + spec_dec(ci.attributes@.len() as int) + "\n"@
}

/// The whole rendered class: header, `Compiled from` lines, declaration
/// block with the summary counts taken from the decoded lists, the full
/// constant-pool listing and the method listing.
pub open spec fn spec_render_class(ci: ClassInfo) -> Seq<char> {
    spec_header_block(ci) + spec_compiled_lines(ci, 0) + spec_decl_block(
        ci,
        spec_this_class_name(ci),
    ) + spec_render_pool(ci.constant_pool) + "{\n"@ + spec_render_methods(
        ci.constant_pool,
        ci.methods@,
        spec_this_class_name(ci),
    ) + "}\n"@
}

/// An internally consistent record: the pool's cross-references resolve,
/// the record's own class entry resolves to a name, every SourceFile
/// attribute's index resolves, and every method is renderable.
pub open spec fn spec_class_renderable(ci: ClassInfo) -> bool {
    &&& ci.constant_pool.resolvable()
    &&& ci.constant_pool.spec_get_class_info(ci.this_class) matches Ok(ni)
        && ci.constant_pool.spec_get_string(ni) is Ok
    &&& forall|i: int|
        0 <= i < ci.attributes@.len() ==> ((#[trigger] ci.attributes@[i]) matches
        AttributeInfo::ATSourceFile { source_file_index } ==> ci.constant_pool.spec_get_string(
            source_file_index,
        ) is Ok)
    &&& spec_methods_renderable(ci.constant_pool, ci.methods@)
}

impl ClassPrinter {
    /// Renders a decoded class record as the full `javap`-style text.
    /// Succeeds on every internally consistent record; the record is only
    /// borrowed and never changed.
    #[verifier::rlimit(100)]
    pub fn print_class(class_info: &ClassInfo) -> (r: Result<String, DecodeError>)
        ensures
            spec_class_renderable(*class_info) ==> (r matches Ok(out) && out@
                == spec_render_class(*class_info)),
    {
        let ghost ci = *class_info;
        let mut out = String::from_str("Classfile ");
        out.append(class_info.file_path.as_str());
        out.append("\n");
        out.append("  Last modified ");
        out.append(class_info.last_modified.as_str());
        out.append("; size ");
        out.append(u64_to_string(class_info.size as u64).as_str());
        out.append(" bytes\n");
        out.append("  SHA-256 checksum ");
        out.append(class_info.hash.as_str());
        out.append("\n");
        proof {
            assert(out@ =~= spec_header_block(ci));
        }
        let ghost header = out@;
        let atot = class_info.attributes.len();
        let mut ai: usize = 0;
        proof {
            assert(header + spec_compiled_lines(ci, 0) =~= out@ + spec_compiled_lines(ci, 0));
        }
        while ai < atot
            invariant
                ci == *class_info,
                atot == class_info.attributes@.len(),
                ai <= atot,
                header == spec_header_block(ci),
                spec_class_renderable(ci) ==> header + spec_compiled_lines(ci, 0) == out@
                    + spec_compiled_lines(ci, ai as int),
            decreases atot - ai,
        {
            let ghost before = out@;
            match &class_info.attributes[ai] {
                AttributeInfo::ATSourceFile { source_file_index } => {
                    let source_file = match class_info.constant_pool.get_string(
                        *source_file_index,
                    ) {
                        Ok(sf) => sf,
                        Err(e) => { return Err(e) },
                    };
                    out.append("  Compiled from \"");
                    out.append(source_file.as_str());
                    out.append("\"\n");
                },
                _ => {},
            }
            proof {
                if spec_class_renderable(ci) {
                    match ci.attributes@[ai as int] {
                        AttributeInfo::ATSourceFile { source_file_index } => {
                            assert(spec_compiled_lines(ci, ai as int) == "  Compiled from \""@
                                + spec_ok_str(
                                ci.constant_pool.spec_get_string(source_file_index),
                            ) + "\"\n"@ + spec_compiled_lines(ci, ai + 1));
                            assert(before + ("  Compiled from \""@ + spec_ok_str(
                                ci.constant_pool.spec_get_string(source_file_index),
                            ) + "\"\n"@ + spec_compiled_lines(ci, ai + 1)) =~= out@
                                + spec_compiled_lines(ci, ai + 1));
                        },
                        _ => {},
                    }
                }
            }
            ai = ai + 1;
        }
        let class_name_index = match class_info.constant_pool.get_class_info(
            class_info.this_class,
        ) {
            Ok(v) => v,
            Err(e) => { return Err(e) },
        };
        let class_name: String = match class_info.constant_pool.get_string(class_name_index) {
            Ok(v) => v.clone(),
            Err(e) => { return Err(e) },
        };
        let ghost before_decl = out@;
        out.append("class ");
        out.append(class_name.as_str());
        out.append("\n");
        out.append("  minor version: ");
        out.append(u64_to_string(class_info.minor_version as u64).as_str());
        out.append("\n");
        out.append("  major version: ");
        out.append(u64_to_string(class_info.major_version as u64).as_str());
        out.append("\n");
        out.append("  this_class: ");
        out.append(num_ref(class_info.this_class as u64).as_str());
        out.append("\n");
        out.append("  super_class: ");
        out.append(num_ref(class_info.super_class as u64).as_str());
        out.append("\n");
        out.append("  interfaces: ");
        out.append(u64_to_string(class_info.interfaces.len() as u64).as_str());
        out.append(", fields: ");
        out.append(u64_to_string(class_info.fields.len() as u64).as_str());
        out.append(", methods: ");
        out.append(u64_to_string(class_info.methods.len() as u64).as_str());
        out.append(", attributes: ");
        out.append(u64_to_string(class_info.attributes.len() as u64).as_str());
        out.append("\n");
        proof {
            assert(class_name@ == spec_this_class_name(ci));
            assert(out@ =~= before_decl + spec_decl_block(ci, spec_this_class_name(ci)));
        }
        let pool_listing = match Self::print_constant_pool(&class_info.constant_pool) {
            Ok(p) => p,
            Err(e) => { return Err(e) },
        };
        out.append(pool_listing.as_str());
        out.append("{\n");
        let methods_text = match Self::print_methods(class_info, class_name.as_str()) {
            Ok(m) => m,
            Err(e) => { return Err(e) },
        };
        out.append(methods_text.as_str());
        out.append("}\n");
        proof {
            if spec_class_renderable(ci) {
                assert(out@ =~= spec_render_class(ci));
            }
        }
        Ok(out)
    }
}


/// Law: a decoded class record is renderable as soon as its pool
/// cross-references, its own class entry, its SourceFile indices and its
/// method name indices resolve. The decoder already guarantees the rest:
/// every stored method descriptor resolved during decoding and its type
/// tokens came out of the descriptor grammar, so with those lookups the
/// whole rendering succeeds.
pub proof fn lemma_decoded_class_renderable(ci: ClassInfo, cm: ClassModel, bytes: Seq<u8>)
    requires
        crate::class_loader::spec_parse_class(bytes) matches Ok(p) && p.0 == cm,
        ci.models(cm),
        ci.constant_pool.resolvable(),
        ci.constant_pool.spec_get_class_info(ci.this_class) matches Ok(ni)
            && ci.constant_pool.spec_get_string(ni) is Ok,
        forall|i: int|
            0 <= i < ci.attributes@.len() ==> ((#[trigger] ci.attributes@[i]) matches
            AttributeInfo::ATSourceFile { source_file_index } ==> ci.constant_pool.spec_get_string(
                source_file_index,
            ) is Ok),
        forall|j: int|
            0 <= j < ci.methods@.len() ==> ci.constant_pool.spec_get_string(
                (#[trigger] ci.methods@[j]).name_index,
            ) is Ok,
    ensures
        spec_class_renderable(ci),
{
    let (pool, p1) = crate::class_loader::spec_parse_pool(bytes, 8)->Ok_0;
    let (interfaces, p2) = crate::class_loader::spec_parse_interfaces(bytes, p1 + 6)->Ok_0;
    let (fields, p3) = crate::class_loader::spec_parse_fields(pool, bytes, p2)->Ok_0;
    let k = crate::byte_array::be_u16_at(bytes, p3) as int;
    crate::class_loader::lemma_parsed_methods_wf(pool, bytes, p3 + 2, k);
    let models = crate::class_loader::spec_parse_method_items(pool, bytes, p3 + 2, k)->Ok_0.0;
    assert(cm.methods == models);
    assert(cm.constant_pool == pool);
    let vfn = |m: crate::class_loader::MethodInfo| m@;
    assert(ci.methods@.map_values(vfn) == cm.methods);
    assert forall|j: int| 0 <= j < ci.methods@.len() implies spec_method_renderable(
        ci.constant_pool,
        #[trigger] ci.methods@[j],
    ) by {
        let m = ci.methods@[j];
        let mm = models[j];
        assert(ci.methods@.map_values(vfn)[j] == vfn(m));
        assert(m@ == mm);
        assert(spec_wf_token(mm.return_type));
        assert(m.return_type@ == mm.return_type);
        assert(crate::class_loader::spec_pool_string(pool, mm.descriptor_index) is Ok);
        assert(ci.constant_pool.spec_get_string(m.descriptor_index) ==
            crate::class_loader::spec_pool_string(ci.constant_pool@, m.descriptor_index));
        assert forall|i: int| 0 <= i < m.args@.len() implies spec_wf_token(
            (#[trigger] m.args@[i])@,
        ) by {
            let afn = |t: String| t@;
            assert(m.args@.map_values(afn)[i] == afn(m.args@[i]));
            assert(mm.args[i] == m.args@[i]@);
            assert(spec_wf_token(mm.args[i]));
        }
    }
}


} // verus!
