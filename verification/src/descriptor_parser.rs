//! Parser for field and method type-signature strings.
//!
//! The grammar is `(` argument-types `)` return-type, where a type is a
//! primitive one-letter code, a class reference `L` + binary name + `;`, or
//! either of those prefixed by one `[` per array dimension. The spec
//! functions state the grammar; the exec parser is proved to follow it
//! exactly, rejecting malformed input with a typed error.

use vstd::prelude::*;
use vstd::string::StrSliceExecFns;

use crate::error::DecodeError;

verus! {

/// A parsed type signature: one internal token per argument and the return
/// type's token.
pub struct Descriptor {
    pub args: Vec<String>,
    pub return_type: String,
}

/// The single-letter primitive type codes, the void code included.
pub open spec fn spec_is_primitive_code(c: char) -> bool {
    ||| c == 'V'
    ||| c == 'B'
    ||| c == 'C'
    ||| c == 'D'
    ||| c == 'F'
    ||| c == 'I'
    ||| c == 'J'
    ||| c == 'S'
    ||| c == 'Z'
}

/// The single-letter primitive type codes, the void code included.
pub fn is_primitive_code(c: char) -> (r: bool)
    ensures
        r == spec_is_primitive_code(c),
{
    c == 'V' || c == 'B' || c == 'C' || c == 'D' || c == 'F' || c == 'I' || c == 'J' || c == 'S'
        || c == 'Z'
}

/// The index of the first `;` in `s`, if any.
pub open spec fn spec_semi_index(s: Seq<char>) -> Option<int>
    decreases s.len(),
{
    if s.len() == 0 {
        None
    } else if s[0] == ';' {
        Some(0)
    } else {
        match spec_semi_index(s.drop_first()) {
            Some(i) => Some(i + 1),
            None => None,
        }
    }
}

/// The index of the first `)` in `s`, if any.
pub open spec fn spec_close_paren_index(s: Seq<char>) -> Option<int>
    decreases s.len(),
{
    if s.len() == 0 {
        None
    } else if s[0] == ')' {
        Some(0)
    } else {
        match spec_close_paren_index(s.drop_first()) {
            Some(i) => Some(i + 1),
            None => None,
        }
    }
}

/// The length of the type token that `s` starts with: one for a primitive
/// code, through the first `;` for a class reference, one more per leading
/// `[`; nothing when `s` starts with no well-formed type.
pub open spec fn spec_type_len(s: Seq<char>) -> Option<int>
    decreases s.len(),
{
    if s.len() == 0 {
        None
    } else if spec_is_primitive_code(s[0]) {
        Some(1)
    } else if s[0] == 'L' {
        match spec_semi_index(s) {
            Some(i) => Some(i + 1),
            None => None,
        }
    } else if s[0] == '[' {
        match spec_type_len(s.drop_first()) {
            Some(n) => Some(n + 1),
            None => None,
        }
    } else {
        None
    }
}

/// A well-formed type token: exactly one type, covering the whole token.
pub open spec fn spec_wf_token(t: Seq<char>) -> bool {
    t.len() > 0 && spec_type_len(t) == Some(t.len() as int)
}

/// Prepends `prefix` to a tokenization tail, passing failure through.
pub open spec fn compose_tokens(prefix: Seq<Seq<char>>, o: Option<Seq<Seq<char>>>) -> Option<
    Seq<Seq<char>>,
> {
    match o {
        Some(rest) => Some(prefix + rest),
        None => None,
    }
}

/// The tokenization of `s` into consecutive type tokens, if `s` is a
/// well-formed run of types.
pub open spec fn spec_tokens(s: Seq<char>) -> Option<Seq<Seq<char>>>
    decreases s.len(),
{
    if s.len() == 0 {
        Some(Seq::empty())
    } else {
        match spec_type_len(s) {
            Some(n) => {
                if 0 < n <= s.len() {
                    compose_tokens(seq![s.take(n)], spec_tokens(s.skip(n)))
                } else {
                    None
                }
            },
            None => None,
        }
    }
}

/// What parsing a whole descriptor yields: the argument tokens between the
/// parentheses and exactly one return-type token after them, or a malformed
/// input.
pub open spec fn spec_parse_descriptor(s: Seq<char>) -> Result<
    (Seq<Seq<char>>, Seq<char>),
    DecodeError,
> {
    if s.len() >= 1 && s[0] == '(' {
        match spec_close_paren_index(s) {
            Some(ci) => {
                let args_part = s.subrange(1, ci);
                let ret_part = s.skip(ci + 1);
                match spec_tokens(args_part) {
                    Some(args) => {
                        if spec_wf_token(ret_part) {
                            Ok((args, ret_part))
                        } else {
                            Err(DecodeError::MalformedDescriptor)
                        }
                    },
                    None => Err(DecodeError::MalformedDescriptor),
                }
            },
            None => Err(DecodeError::MalformedDescriptor),
        }
    } else {
        Err(DecodeError::MalformedDescriptor)
    }
}

/// A found `;` index is in range, holds a `;`, and is the first one.
pub proof fn lemma_semi_index_props(s: Seq<char>)
    ensures
        spec_semi_index(s) matches Some(i) ==> {
            &&& 0 <= i < s.len()
            &&& s[i] == ';'
            &&& forall|k: int| 0 <= k < i ==> s[k] != ';'
        },
    decreases s.len(),
{
    if s.len() == 0 {
    } else if s[0] == ';' {
    } else {
        lemma_semi_index_props(s.drop_first());
        match spec_semi_index(s.drop_first()) {
            Some(i2) => {
                assert(forall|k: int| 1 <= k < i2 + 1 ==> s[k] == s.drop_first()[k - 1]);
                assert(s[i2 + 1] == s.drop_first()[i2]);
            },
            None => {},
        }
    }
}

/// A leading type token is never empty and never runs past the string.
pub proof fn lemma_type_len_bounds(s: Seq<char>)
    ensures
        spec_type_len(s) matches Some(n) ==> 0 < n <= s.len(),
    decreases s.len(),
{
    if s.len() == 0 {
    } else if spec_is_primitive_code(s[0]) {
    } else if s[0] == 'L' {
        lemma_semi_index_props(s);
    } else if s[0] == '[' {
        lemma_type_len_bounds(s.drop_first());
    }
}

/// The first `;` of `s` is at `i` exactly when `s[i]` is `;` and nothing
/// before it is; a `;`-free prefix of the whole string means there is none.
proof fn lemma_semi_first(s: Seq<char>, i: int)
    requires
        0 <= i <= s.len(),
        forall|k: int| 0 <= k < i ==> s[k] != ';',
    ensures
        i < s.len() && s[i] == ';' ==> spec_semi_index(s) == Some(i),
        i == s.len() ==> spec_semi_index(s) is None,
    decreases i,
{
    if i == 0 {
        if s.len() == 0 {
        } else if s[0] == ';' {
        } else {
            if s.len() > 0 {
            }
        }
    } else {
        assert(s[0] != ';');
        lemma_semi_first(s.drop_first(), i - 1);
        assert(forall|k: int|
            0 <= k < i - 1 ==> s.drop_first()[k] == s[k + 1] && s[k + 1] != ';');
        if i < s.len() {
            assert(s.drop_first()[i - 1] == s[i]);
        }
    }
}

/// The same first-occurrence fact for `)`.
proof fn lemma_close_paren_first(s: Seq<char>, i: int)
    requires
        0 <= i <= s.len(),
        forall|k: int| 0 <= k < i ==> s[k] != ')',
    ensures
        i < s.len() && s[i] == ')' ==> spec_close_paren_index(s) == Some(i),
        i == s.len() ==> spec_close_paren_index(s) is None,
    decreases i,
{
    if i == 0 {
    } else {
        assert(s[0] != ')');
        lemma_close_paren_first(s.drop_first(), i - 1);
        assert(forall|k: int|
            0 <= k < i - 1 ==> s.drop_first()[k] == s[k + 1] && s[k + 1] != ')');
        if i < s.len() {
            assert(s.drop_first()[i - 1] == s[i]);
        }
    }
}

/// Dropping `m` leading `[` marks shortens the leading type token by `m`.
pub proof fn lemma_type_len_array(t: Seq<char>, m: int)
    requires
        0 <= m <= t.len(),
        forall|k: int| 0 <= k < m ==> t[k] == '[',
    ensures
        spec_type_len(t) == match spec_type_len(t.skip(m)) {
            Some(n) => Some(n + m),
            None => None::<int>,
        },
    decreases m,
{
    if m == 0 {
        assert(t.skip(0) =~= t);
    } else {
        assert(t[0] == '[');
        assert(t.drop_first() =~= t.skip(1));
        lemma_type_len_array(t.skip(1), m - 1);
        assert(t.skip(1).skip(m - 1) =~= t.skip(m));
        assert(forall|k: int| 0 <= k < m - 1 ==> t.skip(1)[k] == t[k + 1] && t[k + 1] == '[');
    }
}

/// A well-formed run of types has one token exactly when it is a single
/// well-formed token.
proof fn lemma_tokens_single(u: Seq<char>, toks: Seq<Seq<char>>)
    requires
        spec_tokens(u) == Some(toks),
    ensures
        (toks.len() == 1) <==> spec_wf_token(u),
        toks.len() == 1 ==> toks[0] == u,
{
    if u.len() == 0 {
    } else {
        match spec_type_len(u) {
            Some(n) => {
                if 0 < n <= u.len() {
                    let rest = spec_tokens(u.skip(n));
                    match rest {
                        Some(rtoks) => {
                            assert(toks == seq![u.take(n)] + rtoks);
                            if toks.len() == 1 {
                                assert(rtoks.len() == 0);
                                if u.skip(n).len() > 0 {
                                    match spec_type_len(u.skip(n)) {
                                        Some(n2) => {
                                            if 0 < n2 <= u.skip(n).len() {
                                                assert(rtoks.len() > 0);
                                            }
                                        },
                                        None => {},
                                    }
                                }
                                assert(u.skip(n).len() == 0);
                                assert(n == u.len());
                                assert(toks[0] == u.take(n));
                                assert(u.take(n) =~= u);
                            }
                            if spec_wf_token(u) {
                                assert(n == u.len());
                                assert(u.skip(n) =~= Seq::<char>::empty());
                                assert(rtoks.len() == 0);
                            }
                        },
                        None => {},
                    }
                }
            },
            None => {},
        }
    }
}

/// Every token of a well-formed run is itself a well-formed token.
pub proof fn lemma_tokens_wf(u: Seq<char>, toks: Seq<Seq<char>>)
    requires
        spec_tokens(u) == Some(toks),
    ensures
        forall|i: int| 0 <= i < toks.len() ==> spec_wf_token(#[trigger] toks[i]),
    decreases u.len(),
{
    if u.len() == 0 {
    } else {
        match spec_type_len(u) {
            Some(n) => {
                if 0 < n <= u.len() {
                    match spec_tokens(u.skip(n)) {
                        Some(rtoks) => {
                            lemma_tokens_wf(u.skip(n), rtoks);
                            assert(toks == seq![u.take(n)] + rtoks);
                            assert(spec_type_len(u) == Some(n));
                            lemma_type_len_take(u, n);
                            assert forall|i: int| 0 <= i < toks.len() implies spec_wf_token(
                                toks[i],
                            ) by {
                                if i == 0 {
                                    assert(toks[0] == u.take(n));
                                } else {
                                    assert(toks[i] == rtoks[i - 1]);
                                }
                            }
                        },
                        None => {},
                    }
                }
            },
            None => {},
        }
    }
}

/// The leading token's length is unchanged by cutting the string right
/// after it.
proof fn lemma_type_len_take(u: Seq<char>, n: int)
    requires
        spec_type_len(u) == Some(n),
        0 < n <= u.len(),
    ensures
        spec_wf_token(u.take(n)),
    decreases u.len(),
{
    let t = u.take(n);
    if spec_is_primitive_code(u[0]) {
        assert(n == 1);
        assert(t.len() == 1 && spec_is_primitive_code(t[0]));
    } else if u[0] == 'L' {
        match spec_semi_index(u) {
            Some(i) => {
                assert(n == i + 1);
                lemma_semi_prefix_take(u, i);
            },
            None => {},
        }
    } else if u[0] == '[' {
        match spec_type_len(u.drop_first()) {
            Some(n2) => {
                assert(n == n2 + 1);
                assert(u.drop_first() =~= u.skip(1));
                lemma_type_len_bounds(u.skip(1));
                lemma_type_len_take(u.skip(1), n2);
                assert(t[0] == '[');
                assert(t.drop_first() =~= u.skip(1).take(n2));
                assert(spec_type_len(t.drop_first()) == Some(n2));
            },
            None => {},
        }
    }
}

/// Prepending distributes over composing tokenization tails.
proof fn lemma_compose_tokens_assoc(
    a: Seq<Seq<char>>,
    b: Seq<Seq<char>>,
    o: Option<Seq<Seq<char>>>,
)
    ensures
        compose_tokens(a, compose_tokens(b, o)) == compose_tokens(a + b, o),
{
    match o {
        Some(rest) => {
            assert(a + (b + rest) =~= (a + b) + rest);
        },
        None => {},
    }
}

/// Cutting right after the first `;` keeps it the first `;`.
proof fn lemma_semi_prefix_take(u: Seq<char>, i: int)
    requires
        spec_semi_index(u) == Some(i),
        0 <= i < u.len(),
    ensures
        spec_semi_index(u.take(i + 1)) == Some(i),
        u[i] == ';',
        forall|k: int| 0 <= k < i ==> u[k] != ';',
{
    lemma_semi_index_props(u);
    let t = u.take(i + 1);
    assert(forall|k: int| 0 <= k < i ==> t[k] == u[k] && u[k] != ';');
    assert(t[i] == u[i]);
    lemma_semi_first(t, i);
}


/// Splits a descriptor at its first `)` into the part between the
/// parentheses and the part after them.
fn split_descriptor<'a>(descriptor: &'a str) -> (r: Result<(&'a str, &'a str), DecodeError>)
    ensures
        r matches Ok(p) ==> {
            &&& descriptor@.len() >= 1 && descriptor@[0] == '('
            &&& spec_close_paren_index(descriptor@) matches Some(ci) && p.0@ == descriptor@
                .subrange(1, ci) && p.1@ == descriptor@.skip(ci + 1)
        },
        r matches Err(e) ==> {
            &&& e == DecodeError::MalformedDescriptor
            &&& !(descriptor@.len() >= 1 && descriptor@[0] == '(' && spec_close_paren_index(
                descriptor@,
            ) is Some)
        },
{
    let ghost s = descriptor@;
    let len = descriptor.unicode_len();
    if len == 0 {
        return Err(DecodeError::MalformedDescriptor);
    }
    if descriptor.get_char(0) != '(' {
        return Err(DecodeError::MalformedDescriptor);
    }
    let mut i: usize = 0;
    while i < len
        invariant
            s == descriptor@,
            len == s.len(),
            i <= len,
            s[0] == '(',
            forall|k: int| 0 <= k < i ==> s[k] != ')',
        decreases len - i,
    {
        if descriptor.get_char(i) == ')' {
            proof {
                lemma_close_paren_first(s, i as int);
            }
            let args_part = descriptor.substring_char(1, i);
            let return_part = descriptor.substring_char(i + 1, len);
            proof {
                assert(return_part@ =~= s.skip(i + 1));
            }
            return Ok((args_part, return_part));
        }
        i = i + 1;
    }
    proof {
        lemma_close_paren_first(s, len as int);
    }
    Err(DecodeError::MalformedDescriptor)
}

/// Tokenizes a run of types into one string per type, left to right, each
/// leading `[` run attached to the base type that follows it.
fn get_types(descriptor: &str) -> (r: Result<Vec<String>, DecodeError>)
    ensures
        spec_tokens(descriptor@) matches Some(toks) ==> r matches Ok(v) && v@.map_values(
            |t: String| t@,
        ) == toks,
        spec_tokens(descriptor@) is None ==> r == Err::<Vec<String>, DecodeError>(
            DecodeError::MalformedDescriptor,
        ),
{
    let ghost s = descriptor@;
    let ghost vfn = |t: String| t@;
    let len = descriptor.unicode_len();
    let mut args: Vec<String> = Vec::new();
    proof {
        assert(args@.map_values(vfn) =~= Seq::<Seq<char>>::empty());
        assert(s.skip(0) =~= s);
        match spec_tokens(s) {
            Some(toks) => {
                assert(Seq::<Seq<char>>::empty() + toks =~= toks);
            },
            None => {},
        }
    }
    let mut i: usize = 0;
    while i < len
        invariant
            vfn == (|t: String| t@),
            s == descriptor@,
            len == s.len(),
            i <= len,
            spec_tokens(s) == compose_tokens(
                args@.map_values(vfn),
                spec_tokens(s.skip(i as int)),
            ),
        decreases len - i,
    {
        let ghost done = args@.map_values(vfn);
        let ghost u = s.skip(i as int);
        let start = i;
        let mut j = i;
        while j < len && descriptor.get_char(j) == '['
            invariant
                s == descriptor@,
                len == s.len(),
                start <= j <= len,
                forall|k: int| start <= k < j ==> s[k] == '[',
            decreases len - j,
        {
            j = j + 1;
        }
        proof {
            assert(u.skip((j - start) as int) =~= s.skip(j as int));
            assert(forall|k: int| 0 <= k < j - start ==> u[k] == s[k + start] && u[k] == '[');
            lemma_type_len_array(u, (j - start) as int);
        }
        if j == len {
            proof {
                assert(s.skip(j as int).len() == 0);
                assert(spec_type_len(u) is None);
            }
            return Err(DecodeError::MalformedDescriptor);
        }
        let c = descriptor.get_char(j);
        proof {
            assert(s.skip(j as int)[0] == s[j as int]);
        }
        if is_primitive_code(c) {
            let token = descriptor.substring_char(i, j + 1);
            args.push(String::from_str(token));
            proof {
                let n = (j + 1 - i) as int;
                assert(spec_type_len(s.skip(j as int)) == Some(1int));
                assert(spec_type_len(u) == Some(n));
                assert(u.take(n) =~= s.subrange(i as int, i + n));
                assert(token@ == u.take(n));
                assert(u.skip(n) =~= s.skip(i + n));
                assert(spec_tokens(u) == compose_tokens(seq![u.take(n)], spec_tokens(u.skip(n))));
                assert(args@.map_values(vfn) =~= done + seq![token@]);
                lemma_compose_tokens_assoc(done, seq![token@], spec_tokens(s.skip(i + n)));
            }
            i = j + 1;
        } else if c == 'L' {
            let mut k2 = j + 1;
            while k2 < len && descriptor.get_char(k2) != ';'
                invariant
                    s == descriptor@,
                    len == s.len(),
                    j < k2 <= len,
                    (j as int) < s.len(),
                    forall|m: int| j < m < k2 ==> s[m] != ';',
                decreases len - k2,
            {
                k2 = k2 + 1;
            }
            proof {
                assert(forall|m: int|
                    0 <= m < k2 - j ==> s.skip(j as int)[m] == s[m + j]);
            }
            if k2 == len {
                proof {
                    assert(forall|m: int| 0 <= m < len - j ==> s.skip(j as int)[m] != ';');
                    lemma_semi_first(s.skip(j as int), (len - j) as int);
                    assert(spec_type_len(u) is None);
                }
                return Err(DecodeError::MalformedDescriptor);
            }
            let token = descriptor.substring_char(i, k2 + 1);
            args.push(String::from_str(token));
            proof {
                assert(forall|m: int| 0 <= m < k2 - j ==> s.skip(j as int)[m] != ';');
                assert(s.skip(j as int)[(k2 - j) as int] == s[k2 as int]);
                lemma_semi_first(s.skip(j as int), (k2 - j) as int);
                let n = (k2 + 1 - i) as int;
                assert(spec_type_len(s.skip(j as int)) == Some((k2 - j + 1) as int));
                assert(spec_type_len(u) == Some(n));
                assert(u.take(n) =~= s.subrange(i as int, i + n));
                assert(token@ == u.take(n));
                assert(u.skip(n) =~= s.skip(i + n));
                assert(spec_tokens(u) == compose_tokens(seq![u.take(n)], spec_tokens(u.skip(n))));
                assert(args@.map_values(vfn) =~= done + seq![token@]);
                lemma_compose_tokens_assoc(done, seq![token@], spec_tokens(s.skip(i + n)));
            }
            i = k2 + 1;
        } else {
            proof {
                assert(spec_type_len(s.skip(j as int)) is None);
                assert(spec_type_len(u) is None);
            }
            return Err(DecodeError::MalformedDescriptor);
        }
    }
    proof {
        assert(s.skip(i as int).len() == 0);
        assert(spec_tokens(s.skip(i as int)) == Some(Seq::<Seq<char>>::empty()));
        assert(args@.map_values(vfn) + Seq::<Seq<char>>::empty() =~= args@.map_values(vfn));
    }
    Ok(args)
}

/// Parses a method descriptor into its argument-type tokens and exactly one
/// return-type token, rejecting malformed input with a typed error.
pub fn parse_descriptor(descriptor: String) -> (r: Result<Descriptor, DecodeError>)
    ensures
        spec_parse_descriptor(descriptor@) matches Ok(p) ==> {
            &&& r matches Ok(d) && d.args@.map_values(|t: String| t@) == p.0 && d.return_type@
                == p.1
        },
        spec_parse_descriptor(descriptor@) matches Err(e) ==> r == Err::<Descriptor, DecodeError>(
            e,
        ),
{
    let parts = match split_descriptor(descriptor.as_str()) {
        Ok(p) => p,
        Err(e) => { return Err(e) },
    };
    let args = match get_types(parts.0) {
        Ok(a) => a,
        Err(e) => { return Err(e) },
    };
    let mut ret_tokens = match get_types(parts.1) {
        Ok(t) => t,
        Err(e) => {
            proof {
                if spec_wf_token(parts.1@) {
                    let w = parts.1@;
                    assert(w.skip(w.len() as int).len() == 0);
                    assert(spec_tokens(w.skip(w.len() as int)) == Some(
                        Seq::<Seq<char>>::empty(),
                    ));
                    assert(spec_tokens(w) is Some);
                }
            }
            return Err(e);
        },
    };
    let ghost ret_toks = ret_tokens@.map_values(|t: String| t@);
    if ret_tokens.len() == 1 {
        let return_type = match ret_tokens.pop() {
            Some(t) => t,
            None => { return Err(DecodeError::MalformedDescriptor) },
        };
        proof {
            lemma_tokens_single(parts.1@, ret_toks);
            assert(return_type@ == ret_toks[0]);
        }
        Ok(Descriptor { args, return_type })
    } else {
        proof {
            lemma_tokens_single(parts.1@, ret_toks);
        }
        Err(DecodeError::MalformedDescriptor)
    }
}

} // verus!
