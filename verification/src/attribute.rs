//! The `#[bincode(...)]` attributes that the derive macros read: on a container (a struct
//! or an enum) and on a field.
//!
//! A token parser hands over the entries inside `#[bincode(...)]`, in order; each entry
//! keeps the tokens an error should point at, of a type `T` chosen by the caller.

use vstd::prelude::*;

verus! {

/// One entry inside `#[bincode(...)]`.
#[derive(Debug, Clone, PartialEq, Eq)]
pub enum AttributeEntry<T> {
    /// A bare name, as in `#[bincode(skip)]`.
    Tag { name: String, token: T },
    /// `key = literal`, as in `#[bincode(crate = "foo")]`; `literal` is the literal as
    /// written, quotes included.
    Property { key: String, key_token: T, literal: String, literal_token: T },
    /// Any other kind of entry; it is ignored.
    Other,
}

/// A rejected attribute: what is wrong, and the token that the message points at.
#[derive(Debug, Clone, PartialEq, Eq)]
pub struct AttributeError<T> {
    pub message: &'static str,
    pub at: T,
}

/// Whether `s` opens and closes with a double quote.
pub open spec fn quoted(s: Seq<char>) -> bool {
    s.len() >= 1 && s[0] == '"' && s[s.len() - 1] == '"'
}

/// `s` without its first and last characters.
pub open spec fn unquoted(s: Seq<char>) -> Seq<char> {
    s.subrange(1, s.len() - 1)
}

/// Entries as a token parser produces them: a literal that opens and closes with a quote is
/// at least two characters long.
pub open spec fn well_formed_entries<T>(entries: Seq<AttributeEntry<T>>) -> bool {
    forall|i: int|
        0 <= i < entries.len() ==> (#[trigger] entries[i] matches AttributeEntry::Property {
            literal,
            ..
        } ==> (quoted(literal@) ==> literal@.len() >= 2))
}

fn is_quoted(s: &String) -> (b: bool)
    ensures
        b == quoted(s@),
{
    let text = s.as_str();
    let n = text.unicode_len();
    n >= 1 && text.get_char(0) == '"' && text.get_char(n - 1) == '"'
}

fn strip_quotes(s: &String) -> (r: String)
    requires
        s@.len() >= 2,
    ensures
        r@ == unquoted(s@),
{
    let text = s.as_str();
    let n = text.unicode_len();
    text.substring_char(1, n - 1).to_owned()
}

fn is_named(s: &String, name: &str) -> (b: bool)
    ensures
        b == (s@ == name@),
{
    *s == name.to_owned()
}

/// The options of a container attribute: the path of the crate the generated code names,
/// and extra generic bounds or a decode context, each kept with its literal token.
#[derive(Debug, Clone, PartialEq, Eq)]
pub struct ContainerAttributes<T> {
    pub crate_name: String,
    pub bounds: Option<(String, T)>,
    pub decode_bounds: Option<(String, T)>,
    pub decode_context: Option<(String, T)>,
    pub borrow_decode_bounds: Option<(String, T)>,
    pub encode_bounds: Option<(String, T)>,
}

/// The meaning of `ContainerAttributes`, with texts as character sequences.
pub struct ContainerModel<T> {
    pub crate_name: Seq<char>,
    pub bounds: Option<(Seq<char>, T)>,
    pub decode_bounds: Option<(Seq<char>, T)>,
    pub decode_context: Option<(Seq<char>, T)>,
    pub borrow_decode_bounds: Option<(Seq<char>, T)>,
    pub encode_bounds: Option<(Seq<char>, T)>,
}

/// The view of an optional text kept with its token.
pub open spec fn text_option_view<T>(o: Option<(String, T)>) -> Option<(Seq<char>, T)> {
    match o {
        Some((s, t)) => Some((s@, t)),
        None => None,
    }
}

impl<T> View for ContainerAttributes<T> {
    type V = ContainerModel<T>;

    open spec fn view(&self) -> ContainerModel<T> {
        ContainerModel {
            crate_name: self.crate_name@,
            bounds: text_option_view(self.bounds),
            decode_bounds: text_option_view(self.decode_bounds),
            decode_context: text_option_view(self.decode_context),
            borrow_decode_bounds: text_option_view(self.borrow_decode_bounds),
            encode_bounds: text_option_view(self.encode_bounds),
        }
    }
}

/// The container options before any attribute: the crate is `::bincode`, nothing else is set.
pub open spec fn default_container<T>() -> ContainerModel<T> {
    ContainerModel {
        crate_name: "::bincode"@,
        bounds: None,
        decode_bounds: None,
        decode_context: None,
        borrow_decode_bounds: None,
        encode_bounds: None,
    }
}

/// The options after the entry `e`: a known `key = "text"` property sets its option to
/// `text` (for the crate) or to `text` with the literal's token, a known key with another
/// literal is rejected at the literal, and an unknown tag or key is rejected at its token.
pub open spec fn container_entry<T>(c: ContainerModel<T>, e: AttributeEntry<T>) -> Result<
    ContainerModel<T>,
    AttributeError<T>,
> {
    match e {
        AttributeEntry::Property { key, key_token, literal, literal_token } => {
            let known = key@ == "crate"@ || key@ == "bounds"@ || key@ == "decode_bounds"@
                || key@ == "decode_context"@ || key@ == "encode_bounds"@ || key@
                == "borrow_decode_bounds"@;
            if !known {
                Err(AttributeError { message: "Unknown field attribute", at: key_token })
            } else if !quoted(literal@) {
                Err(AttributeError { message: "Should be a literal str", at: literal_token })
            } else {
                let text = unquoted(literal@);
                let kept = Some((text, literal_token));
                if key@ == "crate"@ {
                    Ok(ContainerModel { crate_name: text, ..c })
                } else if key@ == "bounds"@ {
                    Ok(ContainerModel { bounds: kept, ..c })
                } else if key@ == "decode_bounds"@ {
                    Ok(ContainerModel { decode_bounds: kept, ..c })
                } else if key@ == "decode_context"@ {
                    Ok(ContainerModel { decode_context: kept, ..c })
                } else if key@ == "encode_bounds"@ {
                    Ok(ContainerModel { encode_bounds: kept, ..c })
                } else {
                    Ok(ContainerModel { borrow_decode_bounds: kept, ..c })
                }
            }
        },
        AttributeEntry::Tag { name, token } => Err(
            AttributeError { message: "Unknown field attribute", at: token },
        ),
        AttributeEntry::Other => Ok(c),
    }
}

/// The container options that the entries give, read in order from the defaults; the
/// first rejected entry rejects the attribute.
pub open spec fn container_parsed<T>(entries: Seq<AttributeEntry<T>>) -> Result<
    ContainerModel<T>,
    AttributeError<T>,
>
    decreases entries.len(),
{
    if entries.len() == 0 {
        Ok(default_container())
    } else {
        match container_parsed(entries.drop_last()) {
            Ok(c) => container_entry(c, entries.last()),
            Err(e) => Err(e),
        }
    }
}

/// A `key = literal` entry of a container attribute, for one of the keys `crate`, `bounds`,
/// `decode_bounds`, `decode_context`, `encode_bounds` and `borrow_decode_bounds`: a
/// literal that opens and closes with a double quote (of at least two characters, the
/// empty string `""` included) sets that option to the text between the quotes, kept
/// with the literal's token (the crate path without it), and leaves the other options as
/// they were; any other literal is rejected at the literal.
pub proof fn lemma_container_option_entry<T>(
    entries: Seq<AttributeEntry<T>>,
    key: String,
    key_token: T,
    literal: String,
    literal_token: T,
)
    requires
        container_parsed(entries) is Ok,
        key@ == "crate"@ || key@ == "bounds"@ || key@ == "decode_bounds"@ || key@
            == "decode_context"@ || key@ == "encode_bounds"@ || key@ == "borrow_decode_bounds"@,
    ensures
        literal@.len() >= 2 && literal@[0] == '"' && literal@[literal@.len() - 1] == '"'
            && key@ == "crate"@ ==> container_parsed(
            entries.push(AttributeEntry::Property { key, key_token, literal, literal_token }),
        ) == Ok::<ContainerModel<T>, AttributeError<T>>(
            (ContainerModel {
                crate_name: literal@.subrange(1, literal@.len() - 1),
                ..container_parsed(entries)->Ok_0
            }),
        ),
        literal@.len() >= 2 && literal@[0] == '"' && literal@[literal@.len() - 1] == '"'
            && key@ == "bounds"@ ==> container_parsed(
            entries.push(AttributeEntry::Property { key, key_token, literal, literal_token }),
        ) == Ok::<ContainerModel<T>, AttributeError<T>>(
            (ContainerModel {
                bounds: Some((literal@.subrange(1, literal@.len() - 1), literal_token)),
                ..container_parsed(entries)->Ok_0
            }),
        ),
        literal@.len() >= 2 && literal@[0] == '"' && literal@[literal@.len() - 1] == '"'
            && key@ == "decode_bounds"@ ==> container_parsed(
            entries.push(AttributeEntry::Property { key, key_token, literal, literal_token }),
        ) == Ok::<ContainerModel<T>, AttributeError<T>>(
            (ContainerModel {
                decode_bounds: Some((literal@.subrange(1, literal@.len() - 1), literal_token)),
                ..container_parsed(entries)->Ok_0
            }),
        ),
        literal@.len() >= 2 && literal@[0] == '"' && literal@[literal@.len() - 1] == '"'
            && key@ == "decode_context"@ ==> container_parsed(
            entries.push(AttributeEntry::Property { key, key_token, literal, literal_token }),
        ) == Ok::<ContainerModel<T>, AttributeError<T>>(
            (ContainerModel {
                decode_context: Some((literal@.subrange(1, literal@.len() - 1), literal_token)),
                ..container_parsed(entries)->Ok_0
            }),
        ),
        literal@.len() >= 2 && literal@[0] == '"' && literal@[literal@.len() - 1] == '"'
            && key@ == "encode_bounds"@ ==> container_parsed(
            entries.push(AttributeEntry::Property { key, key_token, literal, literal_token }),
        ) == Ok::<ContainerModel<T>, AttributeError<T>>(
            (ContainerModel {
                encode_bounds: Some((literal@.subrange(1, literal@.len() - 1), literal_token)),
                ..container_parsed(entries)->Ok_0
            }),
        ),
        literal@.len() >= 2 && literal@[0] == '"' && literal@[literal@.len() - 1] == '"'
            && key@ == "borrow_decode_bounds"@ ==> container_parsed(
            entries.push(AttributeEntry::Property { key, key_token, literal, literal_token }),
        ) == Ok::<ContainerModel<T>, AttributeError<T>>(
            (ContainerModel {
                borrow_decode_bounds: Some(
                    (literal@.subrange(1, literal@.len() - 1), literal_token),
                ),
                ..container_parsed(entries)->Ok_0
            }),
        ),
        !(literal@.len() >= 1 && literal@[0] == '"' && literal@[literal@.len() - 1] == '"')
            ==> container_parsed(
            entries.push(AttributeEntry::Property { key, key_token, literal, literal_token }),
        ) == Err::<ContainerModel<T>, AttributeError<T>>(
            (AttributeError { message: "Should be a literal str", at: literal_token }),
        ),
{
    reveal_strlit("crate");
    reveal_strlit("bounds");
    reveal_strlit("decode_bounds");
    reveal_strlit("decode_context");
    reveal_strlit("encode_bounds");
    reveal_strlit("borrow_decode_bounds");
    assert("bounds"@ != "crate"@) by {
        assert("bounds"@.len() != "crate"@.len());
    }
    assert("decode_bounds"@ != "crate"@ && "decode_bounds"@ != "bounds"@) by {
        assert("decode_bounds"@.len() != "crate"@.len());
        assert("decode_bounds"@.len() != "bounds"@.len());
    }
    assert("decode_context"@ != "crate"@ && "decode_context"@ != "bounds"@ && "decode_context"@
        != "decode_bounds"@) by {
        assert("decode_context"@.len() == 14 && "decode_bounds"@.len() == 13);
    }
    assert("encode_bounds"@ != "crate"@ && "encode_bounds"@ != "bounds"@ && "encode_bounds"@
        != "decode_bounds"@ && "encode_bounds"@ != "decode_context"@) by {
        assert("encode_bounds"@.len() == 13 && "encode_bounds"@[0] != "decode_bounds"@[0]);
    }
    assert("borrow_decode_bounds"@ != "crate"@ && "borrow_decode_bounds"@ != "bounds"@
        && "borrow_decode_bounds"@ != "decode_bounds"@ && "borrow_decode_bounds"@
        != "decode_context"@ && "borrow_decode_bounds"@ != "encode_bounds"@) by {
        assert("borrow_decode_bounds"@.len() == 20);
    }
    let e = AttributeEntry::Property { key, key_token, literal, literal_token };
    assert(entries.push(e).drop_last() == entries);
    assert(entries.push(e).last() == e);
}

/// Any other entry of a container attribute: a tag is rejected at its token, a
/// `key = literal` entry with an unknown key at its key, and an entry of any other kind is
/// ignored.
pub proof fn lemma_container_other_entries<T>(
    entries: Seq<AttributeEntry<T>>,
    name: String,
    token: T,
    key: String,
    key_token: T,
    literal: String,
    literal_token: T,
)
    requires
        container_parsed(entries) is Ok,
    ensures
        container_parsed(entries.push(AttributeEntry::Tag { name, token })) == Err::<
            ContainerModel<T>,
            AttributeError<T>,
        >((AttributeError { message: "Unknown field attribute", at: token })),
        !(key@ == "crate"@ || key@ == "bounds"@ || key@ == "decode_bounds"@ || key@
            == "decode_context"@ || key@ == "encode_bounds"@ || key@ == "borrow_decode_bounds"@)
            ==> container_parsed(
            entries.push(AttributeEntry::Property { key, key_token, literal, literal_token }),
        ) == Err::<ContainerModel<T>, AttributeError<T>>(
            (AttributeError { message: "Unknown field attribute", at: key_token }),
        ),
        container_parsed(entries.push(AttributeEntry::Other)) == container_parsed(entries),
{
    let t = AttributeEntry::Tag { name, token };
    let p = AttributeEntry::Property { key, key_token, literal, literal_token };
    let o = AttributeEntry::<T>::Other;
    assert(entries.push(t).drop_last() == entries && entries.push(t).last() == t);
    assert(entries.push(p).drop_last() == entries && entries.push(p).last() == p);
    assert(entries.push(o).drop_last() == entries && entries.push(o).last() == o);
}

/// A container attribute with no entries keeps the defaults: the crate is `::bincode` and
/// no bounds or decode context are set.
pub proof fn lemma_container_no_entries<T>()
    ensures
        container_parsed(Seq::<AttributeEntry<T>>::empty()) == Ok::<
            ContainerModel<T>,
            AttributeError<T>,
        >(
            (ContainerModel {
                crate_name: "::bincode"@,
                bounds: None,
                decode_bounds: None,
                decode_context: None,
                borrow_decode_bounds: None,
                encode_bounds: None,
            }),
        ),
{
}

proof fn lemma_container_error_stays<T>(all: Seq<AttributeEntry<T>>, j: int)
    requires
        0 <= j <= all.len(),
        container_parsed(all.take(j)) is Err,
    ensures
        container_parsed(all) == container_parsed(all.take(j)),
    decreases all.len() - j,
{
    if j < all.len() {
        assert(all.take(j + 1).drop_last() == all.take(j));
        lemma_container_error_stays(all, j + 1);
    } else {
        assert(all.take(j) == all);
    }
}

impl<T> Default for ContainerAttributes<T> {
    /// The container options before any attribute.
    fn default() -> (c: ContainerAttributes<T>)
        ensures
            c@ == default_container::<T>(),
    {
        ContainerAttributes {
            crate_name: "::bincode".to_owned(),
            bounds: None,
            decode_bounds: None,
            decode_context: None,
            encode_bounds: None,
            borrow_decode_bounds: None,
        }
    }
}

impl<T> ContainerAttributes<T> {
    /// Reads the entries of a `#[bincode(...)]` attribute on a container.
    pub fn parse(entries: Vec<AttributeEntry<T>>) -> (r: Result<Self, AttributeError<T>>)
        requires
            well_formed_entries(entries@),
        ensures
            match container_parsed(entries@) {
                Ok(c) => r matches Ok(res) && res@ == c,
                Err(e) => r == Err::<Self, AttributeError<T>>(e),
            },
    {
        let ghost all = entries@;
        assert(all.len() == entries.len());
        let mut remaining = entries;
        let mut result = Self::default();
        let mut k: usize = 0;
        assert(all.take(0) == Seq::<AttributeEntry<T>>::empty());
        while remaining.len() > 0
            invariant
                k <= all.len(),
                all == entries@,
                all.len() <= usize::MAX,
                remaining@ == all.skip(k as int),
                well_formed_entries(all),
                container_parsed(all.take(k as int)) == Ok::<ContainerModel<T>, AttributeError<T>>(
                    result@,
                ),
            decreases remaining.len(),
        {
            let entry = remaining.remove(0);
            assert(all.take(k + 1).drop_last() == all.take(k as int));
            assert(all.take(k + 1).last() == entry);
            assert(remaining@ == all.skip(k + 1));
            let ghost before = result@;
            proof {
                assert(all[k as int] == entry);
                assert(container_parsed(all.take(k + 1)) == container_entry(before, entry));
            }
            match entry {
                AttributeEntry::Property { key, key_token, literal, literal_token } => {
                    let is_crate = is_named(&key, "crate");
                    let is_bounds = is_named(&key, "bounds");
                    let is_decode_bounds = is_named(&key, "decode_bounds");
                    let is_decode_context = is_named(&key, "decode_context");
                    let is_encode_bounds = is_named(&key, "encode_bounds");
                    let is_borrow_decode_bounds = is_named(&key, "borrow_decode_bounds");
                    if !(is_crate || is_bounds || is_decode_bounds || is_decode_context
                        || is_encode_bounds || is_borrow_decode_bounds) {
                        proof {
                            lemma_container_error_stays(all, k + 1);
                        }
                        return Err(
                            AttributeError { message: "Unknown field attribute", at: key_token },
                        );
                    }
                    if !is_quoted(&literal) {
                        proof {
                            lemma_container_error_stays(all, k + 1);
                        }
                        return Err(
                            AttributeError {
                                message: "Should be a literal str",
                                at: literal_token,
                            },
                        );
                    }
                    let text = strip_quotes(&literal);
                    if is_crate {
                        result.crate_name = text;
                    } else if is_bounds {
                        result.bounds = Some((text, literal_token));
                    } else if is_decode_bounds {
                        result.decode_bounds = Some((text, literal_token));
                    } else if is_decode_context {
                        result.decode_context = Some((text, literal_token));
                    } else if is_encode_bounds {
                        result.encode_bounds = Some((text, literal_token));
                    } else {
                        result.borrow_decode_bounds = Some((text, literal_token));
                    }
                },
                AttributeEntry::Tag { name, token } => {
                    proof {
                        lemma_container_error_stays(all, k + 1);
                    }
                    return Err(AttributeError { message: "Unknown field attribute", at: token });
                },
                AttributeEntry::Other => {},
            }
            k = k + 1;
        }
        assert(all.take(k as int) == all);
        Ok(result)
    }
}

/// The options of a field attribute: whether the field goes through serde, whether it is
/// skipped (left out of the encoding and restored on decoding), and the path of the
/// zero-argument function that restores a skipped field.
#[derive(Debug, Clone, PartialEq, Eq)]
pub struct FieldAttributes {
    pub with_serde: bool,
    pub skip: bool,
    pub default: Option<String>,
}

/// The meaning of `FieldAttributes`, with the path as a character sequence.
pub struct FieldModel {
    pub with_serde: bool,
    pub skip: bool,
    pub default: Option<Seq<char>>,
}

impl View for FieldAttributes {
    type V = FieldModel;

    open spec fn view(&self) -> FieldModel {
        FieldModel {
            with_serde: self.with_serde,
            skip: self.skip,
            default: match self.default {
                Some(p) => Some(p@),
                None => None,
            },
        }
    }
}

/// The field options before any attribute: nothing is set.
pub open spec fn default_field() -> FieldModel {
    FieldModel { with_serde: false, skip: false, default: None }
}

impl Default for FieldAttributes {
    fn default() -> (f: FieldAttributes)
        ensures
            f@ == default_field(),
    {
        FieldAttributes { with_serde: false, skip: false, default: None }
    }
}

/// The options after the entry `e`: the tags `with_serde` and `skip` set their flags,
/// `default = "path"` with a nonempty path sets the default function and any other
/// literal for it is rejected at the literal, and an unknown tag or key is rejected at its
/// token.
pub open spec fn field_entry<T>(f: FieldModel, e: AttributeEntry<T>) -> Result<
    FieldModel,
    AttributeError<T>,
> {
    match e {
        AttributeEntry::Tag { name, token } => {
            if name@ == "with_serde"@ {
                Ok(FieldModel { with_serde: true, ..f })
            } else if name@ == "skip"@ {
                Ok(FieldModel { skip: true, ..f })
            } else {
                Err(AttributeError { message: "Unknown field attribute", at: token })
            }
        },
        AttributeEntry::Property { key, key_token, literal, literal_token } => {
            if key@ != "default"@ {
                Err(AttributeError { message: "Unknown field attribute", at: key_token })
            } else if quoted(literal@) && literal@.len() > 2 {
                Ok(FieldModel { default: Some(unquoted(literal@)), ..f })
            } else {
                Err(
                    AttributeError {
                        message: "Expected a nonempty function path string",
                        at: literal_token,
                    },
                )
            }
        },
        AttributeEntry::Other => Ok(f),
    }
}

/// The field options that the entries give, read in order from the defaults; the first
/// rejected entry rejects the attribute.
pub open spec fn field_parsed<T>(entries: Seq<AttributeEntry<T>>) -> Result<
    FieldModel,
    AttributeError<T>,
>
    decreases entries.len(),
{
    if entries.len() == 0 {
        Ok(default_field())
    } else {
        match field_parsed(entries.drop_last()) {
            Ok(f) => field_entry(f, entries.last()),
            Err(e) => Err(e),
        }
    }
}

/// The field options of an attribute whose token is `group`: those that the entries give,
/// unless a default function is given without `skip`, or `skip` comes with `with_serde`;
/// these combinations are rejected at the attribute.
pub open spec fn field_checked<T>(group: T, entries: Seq<AttributeEntry<T>>) -> Result<
    FieldModel,
    AttributeError<T>,
> {
    match field_parsed(entries) {
        Ok(f) => if f.default is Some && !f.skip {
            Err(AttributeError { message: "bincode default requires skip", at: group })
        } else if f.skip && f.with_serde {
            Err(
                AttributeError {
                    message: "bincode skip cannot be combined with with_serde",
                    at: group,
                },
            )
        } else {
            Ok(f)
        },
        Err(e) => Err(e),
    }
}

/// An accepted field attribute never gives a default function without `skip`, and never
/// combines `skip` with `with_serde`.
pub proof fn lemma_field_options_consistent<T>(group: T, entries: Seq<AttributeEntry<T>>)
    ensures
        field_checked(group, entries) matches Ok(f) ==> (f.default is Some ==> f.skip) && !(
        f.skip && f.with_serde),
{
}

/// The options after `e`, when reading goes on from `r`.
pub open spec fn then_field_entry<T>(r: Result<FieldModel, AttributeError<T>>, e: AttributeEntry<T>) -> Result<
    FieldModel,
    AttributeError<T>,
> {
    match r {
        Ok(f) => field_entry(f, e),
        Err(x) => Err(x),
    }
}

/// The order of accepted field entries does not matter: two entries that are each accepted
/// give the same options in either order, unless both give a default function (then the
/// later one wins).
pub proof fn lemma_field_entries_commute<T>(f: FieldModel, a: AttributeEntry<T>, b: AttributeEntry<T>)
    requires
        field_entry(f, a) is Ok,
        field_entry(f, b) is Ok,
        !(a is Property && b is Property),
    ensures
        then_field_entry(field_entry(f, a), b) == then_field_entry(field_entry(f, b), a),
{
}

/// Whether the entry `e` is accepted; this does not depend on the entries before it.
pub open spec fn field_entry_accepted<T>(e: AttributeEntry<T>) -> bool {
    field_entry(default_field(), e) is Ok
}

/// Whether `e` is the tag `name`.
pub open spec fn is_tag<T>(e: AttributeEntry<T>, name: Seq<char>) -> bool {
    e matches AttributeEntry::Tag { name: n, .. } && n@ == name
}

/// Whether `e` is a `default = ...` entry.
pub open spec fn is_default_entry<T>(e: AttributeEntry<T>) -> bool {
    e matches AttributeEntry::Property { key, .. } && key@ == "default"@
}

/// The entries hold at most one `default = ...` entry.
pub open spec fn at_most_one_default<T>(s: Seq<AttributeEntry<T>>) -> bool {
    forall|i: int, j: int|
        #![trigger s[i], s[j]]
        0 <= i < j < s.len() && is_default_entry(s[i]) ==> !is_default_entry(s[j])
}

/// The options that the entries give, told by their contents alone: they are accepted
/// exactly when each of them is, and then `with_serde` and `skip` are set when some entry
/// is that tag, and a default function is given when some entry gives one (where only
/// one does, it is that entry's).
proof fn lemma_field_parsed_by_contents<T>(s: Seq<AttributeEntry<T>>)
    ensures
        field_parsed(s) is Ok <==> (forall|i: int| 0 <= i < s.len() ==> field_entry_accepted(#[trigger] s[i])),
        field_parsed(s) is Ok ==> (field_parsed(s)->Ok_0.with_serde <==> exists|i: int|
            0 <= i < s.len() && is_tag(#[trigger] s[i], "with_serde"@)),
        field_parsed(s) is Ok ==> (field_parsed(s)->Ok_0.skip <==> exists|i: int|
            0 <= i < s.len() && is_tag(#[trigger] s[i], "skip"@)),
        field_parsed(s) is Ok ==> (field_parsed(s)->Ok_0.default is Some <==> exists|i: int|
            0 <= i < s.len() && is_default_entry(#[trigger] s[i])),
        field_parsed(s) is Ok && at_most_one_default(s) ==> forall|i: int|
            0 <= i < s.len() && is_default_entry(#[trigger] s[i]) ==> field_parsed(s)->Ok_0.default
                == Some(unquoted(s[i]->literal@)),
    decreases s.len(),
{
    reveal_strlit("with_serde");
    reveal_strlit("skip");
    reveal_strlit("default");
    assert("skip"@ != "with_serde"@) by {
        assert("skip"@.len() != "with_serde"@.len());
    }
    if s.len() > 0 {
        let init = s.drop_last();
        let n = init.len() as int;
        let e = s[n];
        lemma_field_parsed_by_contents(init);
        assert(forall|i: int| 0 <= i < n ==> #[trigger] init[i] == s[i]);
        if field_parsed(s) is Ok {
            let g = field_parsed(init)->Ok_0;
            let f = field_parsed(s)->Ok_0;
            assert(f == field_entry(g, e)->Ok_0);
            assert forall|i: int| 0 <= i < s.len() implies field_entry_accepted(#[trigger] s[i]) by {
                if i < n {
                    assert(init[i] == s[i]);
                }
            }
            assert(f.with_serde == (g.with_serde || is_tag(e, "with_serde"@)));
            assert(f.skip == (g.skip || is_tag(e, "skip"@)));
            assert((f.default is Some) == (g.default is Some || is_default_entry(e)));
            if exists|i: int| 0 <= i < s.len() && is_tag(#[trigger] s[i], "with_serde"@) {
                let i = choose|i: int| 0 <= i < s.len() && is_tag(#[trigger] s[i], "with_serde"@);
                if i < n {
                    assert(is_tag(init[i], "with_serde"@));
                }
            }
            if g.with_serde {
                let i = choose|i: int| 0 <= i < n && is_tag(#[trigger] init[i], "with_serde"@);
                assert(is_tag(s[i], "with_serde"@));
            }
            if exists|i: int| 0 <= i < s.len() && is_tag(#[trigger] s[i], "skip"@) {
                let i = choose|i: int| 0 <= i < s.len() && is_tag(#[trigger] s[i], "skip"@);
                if i < n {
                    assert(is_tag(init[i], "skip"@));
                }
            }
            if g.skip {
                let i = choose|i: int| 0 <= i < n && is_tag(#[trigger] init[i], "skip"@);
                assert(is_tag(s[i], "skip"@));
            }
            if exists|i: int| 0 <= i < s.len() && is_default_entry(#[trigger] s[i]) {
                let i = choose|i: int| 0 <= i < s.len() && is_default_entry(#[trigger] s[i]);
                if i < n {
                    assert(is_default_entry(init[i]));
                }
            }
            if g.default is Some {
                let i = choose|i: int| 0 <= i < n && is_default_entry(#[trigger] init[i]);
                assert(is_default_entry(s[i]));
            }
            if at_most_one_default(s) {
                assert(at_most_one_default(init)) by {
                    assert forall|i: int, j: int|
                        #![trigger init[i], init[j]]
                        0 <= i < j < init.len() && is_default_entry(init[i]) implies !is_default_entry(
                            init[j],
                        ) by {
                        assert(s[i] == init[i] && s[j] == init[j]);
                    }
                }
                assert forall|i: int|
                    0 <= i < s.len() && is_default_entry(#[trigger] s[i]) implies f.default == Some(
                        unquoted(s[i]->literal@),
                    ) by {
                    if i < n {
                        assert(is_default_entry(init[i]));
                        assert(!is_default_entry(s[n])) by {
                            assert(is_default_entry(s[i]));
                        }
                        assert(f.default == g.default);
                    }
                }
            }
        } else {
            if field_parsed(init) is Ok {
                assert(!field_entry_accepted(s[n]));
            } else {
                let i = choose|i: int| 0 <= i < n && !field_entry_accepted(#[trigger] init[i]);
                assert(!field_entry_accepted(s[i]));
            }
        }
    }
}

/// Every entry of `a` is an entry of `b`.
spec fn entries_within<T>(a: Seq<AttributeEntry<T>>, b: Seq<AttributeEntry<T>>) -> bool {
    forall|i: int| 0 <= i < a.len() ==> b.contains(#[trigger] a[i])
}

proof fn lemma_rearranged_entries_within<T>(a: Seq<AttributeEntry<T>>, b: Seq<AttributeEntry<T>>)
    requires
        a.to_multiset() == b.to_multiset(),
    ensures
        entries_within(a, b),
{
    broadcast use vstd::seq_lib::group_to_multiset_ensures;

    assert forall|i: int| 0 <= i < a.len() implies b.contains(#[trigger] a[i]) by {
        assert(a.contains(a[i]));
        assert(a.to_multiset().count(a[i]) > 0);
    }
}

/// Where the entries of `a` are among those of `b`, both give options and each holds at
/// most one default function: `b`'s flags are set wherever `a`'s are, and `a`'s default
/// function (if any) is `b`'s.
proof fn lemma_options_within<T>(a: Seq<AttributeEntry<T>>, b: Seq<AttributeEntry<T>>)
    requires
        entries_within(a, b),
        field_parsed(a) is Ok,
        field_parsed(b) is Ok,
        at_most_one_default(a),
        at_most_one_default(b),
    ensures
        field_parsed(a)->Ok_0.with_serde ==> field_parsed(b)->Ok_0.with_serde,
        field_parsed(a)->Ok_0.skip ==> field_parsed(b)->Ok_0.skip,
        field_parsed(a)->Ok_0.default is Some ==> field_parsed(b)->Ok_0.default
            == field_parsed(a)->Ok_0.default,
{
    lemma_field_parsed_by_contents(a);
    lemma_field_parsed_by_contents(b);
    let f = field_parsed(a)->Ok_0;
    if f.with_serde {
        let i = choose|i: int| 0 <= i < a.len() && is_tag(#[trigger] a[i], "with_serde"@);
        assert(b.contains(a[i]));
        let j = choose|j: int| 0 <= j < b.len() && b[j] == a[i];
        assert(is_tag(b[j], "with_serde"@));
    }
    if f.skip {
        let i = choose|i: int| 0 <= i < a.len() && is_tag(#[trigger] a[i], "skip"@);
        assert(b.contains(a[i]));
        let j = choose|j: int| 0 <= j < b.len() && b[j] == a[i];
        assert(is_tag(b[j], "skip"@));
    }
    if f.default is Some {
        let i = choose|i: int| 0 <= i < a.len() && is_default_entry(#[trigger] a[i]);
        assert(b.contains(a[i]));
        let j = choose|j: int| 0 <= j < b.len() && b[j] == a[i];
        assert(is_default_entry(b[j]));
        assert(f.default == Some(unquoted(a[i]->literal@)));
        assert(field_parsed(b)->Ok_0.default == Some(unquoted(b[j]->literal@)));
    }
}

/// Where the entries of `a` are among those of `b`, `a` gives options whenever `b` does.
proof fn lemma_accepted_within<T>(a: Seq<AttributeEntry<T>>, b: Seq<AttributeEntry<T>>)
    requires
        entries_within(a, b),
        field_parsed(b) is Ok,
    ensures
        field_parsed(a) is Ok,
{
    lemma_field_parsed_by_contents(a);
    lemma_field_parsed_by_contents(b);
    assert forall|i: int| 0 <= i < a.len() implies field_entry_accepted(#[trigger] a[i]) by {
        assert(b.contains(a[i]));
        let j = choose|j: int| 0 <= j < b.len() && b[j] == a[i];
        assert(field_entry_accepted(b[j]));
    }
}

/// The order of a field attribute's entries does not matter: entries that are a
/// rearrangement of each other, with at most one `default = ...` among them, are accepted
/// or rejected together, and when accepted they give the same options.
pub proof fn lemma_field_parse_ignores_order<T>(
    group: T,
    s1: Seq<AttributeEntry<T>>,
    s2: Seq<AttributeEntry<T>>,
)
    requires
        s1.to_multiset() == s2.to_multiset(),
        at_most_one_default(s1),
        at_most_one_default(s2),
    ensures
        field_checked(group, s1) is Ok <==> field_checked(group, s2) is Ok,
        field_checked(group, s1) is Ok ==> field_checked(group, s1) == field_checked(group, s2),
{
    lemma_rearranged_entries_within(s1, s2);
    lemma_rearranged_entries_within(s2, s1);
    if field_parsed(s1) is Ok {
        lemma_accepted_within(s2, s1);
    }
    if field_parsed(s2) is Ok {
        lemma_accepted_within(s1, s2);
    }
    if field_parsed(s1) is Ok && field_parsed(s2) is Ok {
        lemma_field_parsed_by_contents(s1);
        lemma_options_within(s1, s2);
        lemma_options_within(s2, s1);
        let f1 = field_parsed(s1)->Ok_0;
        let f2 = field_parsed(s2)->Ok_0;
        assert(f1.default is Some <==> f2.default is Some);
        assert(f1 == f2);
    }
}

/// A `default = literal` entry of a field attribute is accepted exactly when the literal
/// opens and closes with a double quote and holds at least one character between them,
/// whatever characters the path has; it then sets the default function to the text between
/// the quotes and leaves the other options as they were. Any other literal is rejected at
/// the literal.
pub proof fn lemma_field_default_entry<T>(
    entries: Seq<AttributeEntry<T>>,
    key: String,
    key_token: T,
    literal: String,
    literal_token: T,
)
    requires
        field_parsed(entries) is Ok,
        key@ == "default"@,
    ensures
        literal@.len() >= 3 && literal@[0] == '"' && literal@[literal@.len() - 1] == '"'
            ==> field_parsed(
            entries.push(AttributeEntry::Property { key, key_token, literal, literal_token }),
        ) == Ok::<FieldModel, AttributeError<T>>(
            (FieldModel {
                default: Some(literal@.subrange(1, literal@.len() - 1)),
                ..field_parsed(entries)->Ok_0
            }),
        ),
        !(literal@.len() >= 3 && literal@[0] == '"' && literal@[literal@.len() - 1] == '"')
            ==> field_parsed(
            entries.push(AttributeEntry::Property { key, key_token, literal, literal_token }),
        ) == Err::<FieldModel, AttributeError<T>>(
            (AttributeError {
                message: "Expected a nonempty function path string",
                at: literal_token,
            }),
        ),
{
    let e = AttributeEntry::Property { key, key_token, literal, literal_token };
    assert(entries.push(e).drop_last() == entries);
    assert(entries.push(e).last() == e);
}

/// The tags `with_serde` and `skip` set their option and leave the others as they were.
pub proof fn lemma_field_flag_entry<T>(entries: Seq<AttributeEntry<T>>, name: String, token: T)
    requires
        field_parsed(entries) is Ok,
    ensures
        name@ == "with_serde"@ ==> field_parsed(
            entries.push(AttributeEntry::Tag { name, token }),
        ) == Ok::<FieldModel, AttributeError<T>>(
            (FieldModel { with_serde: true, ..field_parsed(entries)->Ok_0 }),
        ),
        name@ == "skip"@ ==> field_parsed(entries.push(AttributeEntry::Tag { name, token }))
            == Ok::<FieldModel, AttributeError<T>>(
            (FieldModel { skip: true, ..field_parsed(entries)->Ok_0 }),
        ),
{
    reveal_strlit("with_serde");
    reveal_strlit("skip");
    assert("skip"@ != "with_serde"@) by {
        assert("skip"@.len() != "with_serde"@.len());
    }
    let e = AttributeEntry::Tag { name, token };
    assert(entries.push(e).drop_last() == entries);
    assert(entries.push(e).last() == e);
}

/// Any other entry of a field attribute: a tag other than `with_serde` and `skip` is
/// rejected at its token, a `key = literal` entry whose key is not `default` at its key,
/// and an entry of any other kind is ignored.
pub proof fn lemma_field_other_entries<T>(
    entries: Seq<AttributeEntry<T>>,
    name: String,
    token: T,
    key: String,
    key_token: T,
    literal: String,
    literal_token: T,
)
    requires
        field_parsed(entries) is Ok,
    ensures
        name@ != "with_serde"@ && name@ != "skip"@ ==> field_parsed(
            entries.push(AttributeEntry::Tag { name, token }),
        ) == Err::<FieldModel, AttributeError<T>>(
            (AttributeError { message: "Unknown field attribute", at: token }),
        ),
        key@ != "default"@ ==> field_parsed(
            entries.push(AttributeEntry::Property { key, key_token, literal, literal_token }),
        ) == Err::<FieldModel, AttributeError<T>>(
            (AttributeError { message: "Unknown field attribute", at: key_token }),
        ),
        field_parsed(entries.push(AttributeEntry::Other)) == field_parsed(entries),
{
    let t = AttributeEntry::Tag { name, token };
    let p = AttributeEntry::Property { key, key_token, literal, literal_token };
    let o = AttributeEntry::<T>::Other;
    assert(entries.push(t).drop_last() == entries && entries.push(t).last() == t);
    assert(entries.push(p).drop_last() == entries && entries.push(p).last() == p);
    assert(entries.push(o).drop_last() == entries && entries.push(o).last() == o);
}

/// Inconsistent options are rejected at the attribute's token: a default function without
/// `skip`, and otherwise `skip` together with `with_serde`.
pub proof fn lemma_field_checked_rejects_inconsistent_options<T>(group: T, entries: Seq<AttributeEntry<T>>)
    ensures
        field_parsed(entries) matches Ok(f) && f.default is Some && !f.skip ==> field_checked(
            group,
            entries,
        ) == Err::<FieldModel, AttributeError<T>>(
            (AttributeError { message: "bincode default requires skip", at: group }),
        ),
        field_parsed(entries) matches Ok(f) && f.skip && f.with_serde ==> field_checked(
            group,
            entries,
        ) == Err::<FieldModel, AttributeError<T>>(
            (AttributeError {
                message: "bincode skip cannot be combined with with_serde",
                at: group,
            }),
        ),
{
}

/// A field attribute with no entries sets no option.
pub proof fn lemma_field_no_entries<T>()
    ensures
        field_parsed(Seq::<AttributeEntry<T>>::empty()) == Ok::<FieldModel, AttributeError<T>>(
            (FieldModel { with_serde: false, skip: false, default: None }),
        ),
{
}

/// Options that the entries give are accepted as they are when they are consistent: a
/// default function only with `skip`, and `skip` never with `with_serde`.
pub proof fn lemma_field_checked_keeps_consistent_options<T>(group: T, entries: Seq<AttributeEntry<T>>)
    ensures
        field_parsed(entries) matches Ok(f) && (f.default is Some ==> f.skip) && !(f.skip
            && f.with_serde) ==> field_checked(group, entries) == field_parsed(entries),
        field_parsed(entries) is Err ==> field_checked(group, entries) == field_parsed(entries),
{
}

proof fn lemma_field_error_stays<T>(all: Seq<AttributeEntry<T>>, j: int)
    requires
        0 <= j <= all.len(),
        field_parsed(all.take(j)) is Err,
    ensures
        field_parsed(all) == field_parsed(all.take(j)),
    decreases all.len() - j,
{
    if j < all.len() {
        assert(all.take(j + 1).drop_last() == all.take(j));
        lemma_field_error_stays(all, j + 1);
    } else {
        assert(all.take(j) == all);
    }
}

impl FieldAttributes {
    /// Reads the entries of a `#[bincode(...)]` attribute on a field; `group` is the
    /// attribute's token, at which the rejected combinations of options point.
    pub fn parse<T>(group: T, entries: Vec<AttributeEntry<T>>) -> (r: Result<
        FieldAttributes,
        AttributeError<T>,
    >)
        ensures
            match field_checked(group, entries@) {
                Ok(f) => r matches Ok(res) && res@ == f,
                Err(e) => r == Err::<FieldAttributes, AttributeError<T>>(e),
            },
    {
        let ghost all = entries@;
        assert(all.len() == entries.len());
        let mut remaining = entries;
        let mut result = FieldAttributes::default();
        let mut k: usize = 0;
        assert(all.take(0) == Seq::<AttributeEntry<T>>::empty());
        while remaining.len() > 0
            invariant
                k <= all.len(),
                all == entries@,
                all.len() <= usize::MAX,
                remaining@ == all.skip(k as int),
                field_parsed(all.take(k as int)) == Ok::<FieldModel, AttributeError<T>>(result@),
            decreases remaining.len(),
        {
            let entry = remaining.remove(0);
            let ghost before = result@;
            proof {
                assert(all.take(k + 1).drop_last() == all.take(k as int));
                assert(all.take(k + 1).last() == entry);
                assert(field_parsed(all.take(k + 1)) == field_entry(before, entry));
            }
            match entry {
                AttributeEntry::Tag { name, token } => {
                    if is_named(&name, "with_serde") {
                        result.with_serde = true;
                    } else if is_named(&name, "skip") {
                        result.skip = true;
                    } else {
                        proof {
                            lemma_field_error_stays(all, k + 1);
                        }
                        return Err(AttributeError { message: "Unknown field attribute", at: token });
                    }
                },
                AttributeEntry::Property { key, key_token, literal, literal_token } => {
                    if !is_named(&key, "default") {
                        proof {
                            lemma_field_error_stays(all, k + 1);
                        }
                        return Err(
                            AttributeError { message: "Unknown field attribute", at: key_token },
                        );
                    }
                    if is_quoted(&literal) && literal.as_str().unicode_len() > 2 {
                        result.default = Some(strip_quotes(&literal));
                    } else {
                        proof {
                            lemma_field_error_stays(all, k + 1);
                        }
                        return Err(
                            AttributeError {
                                message: "Expected a nonempty function path string",
                                at: literal_token,
                            },
                        );
                    }
                },
                AttributeEntry::Other => {},
            }
            k = k + 1;
        }
        assert(all.take(k as int) == all);
        if result.default.is_some() && !result.skip {
            return Err(AttributeError { message: "bincode default requires skip", at: group });
        }
        if result.skip && result.with_serde {
            return Err(
                AttributeError {
                    message: "bincode skip cannot be combined with with_serde",
                    at: group,
                },
            );
        }
        Ok(result)
    }

    /// The expression that restores a skipped field: a call of its default function, or
    /// of `Default::default`.
    pub fn default_expression(&self) -> (r: String)
        ensures
            r@ == match self.default {
                Some(path) => path@ + "()"@,
                None => "core::default::Default::default()"@,
            },
    {
        match &self.default {
            Some(path) => path.clone().concat("()"),
            None => "core::default::Default::default()".to_owned(),
        }
    }
}

/// A token of a field's type, with its text as written.
#[derive(Debug, PartialEq, Eq)]
pub enum TypeToken {
    /// An identifier.
    Ident(String),
    /// A delimited group, with its whole text and the tokens inside it.
    Group { text: String, inner: Vec<TypeToken> },
    /// Any other token (punctuation or a literal).
    Other(String),
}

/// The text of a type token.
pub open spec fn token_text(t: TypeToken) -> Seq<char> {
    match t {
        TypeToken::Ident(s) => s@,
        TypeToken::Group { text, .. } => text@,
        TypeToken::Other(s) => s@,
    }
}

/// The texts of `ts`, separated by `sep`.
pub open spec fn joined(ts: Seq<Seq<char>>, sep: Seq<char>) -> Seq<char>
    decreases ts.len(),
{
    if ts.len() == 0 {
        Seq::empty()
    } else if ts.len() == 1 {
        ts[0]
    } else {
        joined(ts.drop_last(), sep) + sep + ts.last()
    }
}

/// The text of a type: the texts of its tokens separated by single spaces.
pub open spec fn type_text(ty: Seq<TypeToken>) -> Seq<char> {
    joined(ty.map_values(|t: TypeToken| token_text(t)), " "@)
}

/// The identifiers of a type, at any depth of nesting, in order.
pub open spec fn identifiers(tokens: Seq<TypeToken>) -> Seq<Seq<char>>
    decreases tokens,
{
    if tokens.len() == 0 {
        Seq::empty()
    } else {
        identifiers(tokens.drop_last()) + match tokens.last() {
            TypeToken::Ident(s) => seq![s@],
            TypeToken::Group { inner, .. } => identifiers(inner@),
            TypeToken::Other(_) => Seq::empty(),
        }
    }
}

/// The texts of a sequence of strings.
pub open spec fn texts(v: Seq<String>) -> Seq<Seq<char>> {
    v.map_values(|s: String| s@)
}

/// The identifiers of a type are found token by token: those of two runs of tokens one
/// after the other are those of the first run followed by those of the second, whatever
/// tokens stand at the boundary.
pub proof fn lemma_identifiers_concat(a: Seq<TypeToken>, b: Seq<TypeToken>)
    ensures
        identifiers(a + b) == identifiers(a) + identifiers(b),
    decreases b.len(),
{
    if b.len() == 0 {
        assert(a + b == a);
        assert(identifiers(a) + identifiers(b) == identifiers(a));
    } else {
        lemma_identifiers_concat(a, b.drop_last());
        assert((a + b).drop_last() == a + b.drop_last());
        assert((a + b).last() == b.last());
        assert(identifiers(a) + identifiers(b.drop_last()) + identifiers(seq![b.last()]).skip(0)
            == identifiers(a) + (identifiers(b.drop_last()) + identifiers(seq![b.last()]).skip(0)));
        lemma_identifiers_of_one(b.last());
        assert(identifiers(b) == identifiers(b.drop_last()) + identifiers(seq![b.last()]));
    }
}

/// The identifiers of a single token: an identifier is itself, a delimited group has the
/// identifiers of the tokens inside it, and any other token has none.
pub proof fn lemma_identifiers_of_one(t: TypeToken)
    ensures
        t matches TypeToken::Ident(s) ==> identifiers(seq![t]) == seq![s@],
        t matches TypeToken::Group { inner, .. } ==> identifiers(seq![t]) == identifiers(inner@),
        t is Other ==> identifiers(seq![t]) == Seq::<Seq<char>>::empty(),
{
    assert(seq![t].drop_last() == Seq::<TypeToken>::empty());
    assert(seq![t].last() == t);
    assert(identifiers(Seq::<TypeToken>::empty()) == Seq::<Seq<char>>::empty());
    let own = match t {
        TypeToken::Ident(s) => seq![s@],
        TypeToken::Group { inner, .. } => identifiers(inner@),
        TypeToken::Other(_) => Seq::<Seq<char>>::empty(),
    };
    assert(identifiers(seq![t]) == Seq::<Seq<char>>::empty() + own);
    assert(Seq::<Seq<char>>::empty() + own == own);
}

/// Every identifier token of a type, at any depth of nesting and whatever tokens surround
/// it, is among the type's identifiers; and the type's identifiers are only those.
pub proof fn lemma_identifiers_members(tokens: Seq<TypeToken>)
    ensures
        forall|i: int|
            0 <= i < tokens.len() && tokens[i] is Ident ==> identifiers(tokens).contains(
                #[trigger] tokens[i]->Ident_0@,
            ),
        forall|i: int, x: Seq<char>|
            0 <= i < tokens.len() && tokens[i] is Group && identifiers(tokens[i]->inner@).contains(x)
                ==> #[trigger] identifiers(tokens).contains(x) && #[trigger] tokens[i] is Group,
        forall|x: Seq<char>|
            #[trigger] identifiers(tokens).contains(x) ==> exists|i: int|
                0 <= i < tokens.len() && ((tokens[i] is Ident && tokens[i]->Ident_0@ == x) || (tokens[i] is Group
                    && identifiers(tokens[i]->inner@).contains(x))),
    decreases tokens.len(),
{
    if tokens.len() > 0 {
        let init = tokens.drop_last();
        let t = tokens.last();
        let n = init.len() as int;
        lemma_identifiers_members(init);
        lemma_identifiers_concat(init, seq![t]);
        assert(init + seq![t] == tokens);
        lemma_identifiers_of_one(t);
        let ids = identifiers(tokens);
        assert(ids == identifiers(init) + identifiers(seq![t]));
        assert forall|i: int|
            0 <= i < tokens.len() && tokens[i] is Ident implies ids.contains(
                #[trigger] tokens[i]->Ident_0@,
            ) by {
            if i < n {
                assert(init[i] == tokens[i]);
                let j = choose|j: int| 0 <= j < identifiers(init).len() && identifiers(init)[j]
                    == init[i]->Ident_0@;
                assert(ids[j] == identifiers(init)[j]);
            } else {
                assert(ids[identifiers(init).len() as int] == t->Ident_0@);
            }
        }
        assert forall|i: int, x: Seq<char>|
            0 <= i < tokens.len() && tokens[i] is Group && identifiers(tokens[i]->inner@).contains(x)
                implies #[trigger] ids.contains(x) && #[trigger] tokens[i] is Group by {
            if i < n {
                assert(init[i] == tokens[i]);
                assert(identifiers(init).contains(x) && init[i] is Group);
                let j = choose|j: int| 0 <= j < identifiers(init).len() && identifiers(init)[j] == x;
                assert(ids[j] == identifiers(init)[j]);
            } else {
                let j = choose|j: int| 0 <= j < identifiers(t->inner@).len() && identifiers(
                    t->inner@,
                )[j] == x;
                assert(ids[identifiers(init).len() + j] == x);
            }
        }
        assert forall|x: Seq<char>| #[trigger] ids.contains(x) implies exists|i: int|
            0 <= i < tokens.len() && ((tokens[i] is Ident && tokens[i]->Ident_0@ == x) || (tokens[i] is Group
                    && identifiers(tokens[i]->inner@).contains(x))) by {
            let j = choose|j: int| 0 <= j < ids.len() && ids[j] == x;
            if j < identifiers(init).len() {
                assert(identifiers(init)[j] == x);
                assert(identifiers(init).contains(x));
                let i = choose|i: int|
                    0 <= i < init.len() && ((init[i] is Ident && init[i]->Ident_0@ == x) || (init[i] is Group
                    && identifiers(init[i]->inner@).contains(x)));
                assert(init[i] == tokens[i]);
            } else {
                let k = j - identifiers(init).len();
                assert(identifiers(seq![t])[k] == x);
                if t is Group {
                    assert(identifiers(t->inner@).contains(x));
                }
                assert(tokens[n] == t);
            }
        }
    }
}

/// Joining two nonempty runs of texts puts one separator between them.
proof fn lemma_joined_concat(x: Seq<Seq<char>>, y: Seq<Seq<char>>, sep: Seq<char>)
    requires
        x.len() > 0,
        y.len() > 0,
    ensures
        joined(x + y, sep) == joined(x, sep) + sep + joined(y, sep),
    decreases y.len(),
{
    assert((x + y).drop_last() == x + y.drop_last());
    assert((x + y).last() == y.last());
    if y.len() == 1 {
        assert(y.drop_last().len() == 0);
        assert(x + y.drop_last() == x);
    } else {
        lemma_joined_concat(x, y.drop_last(), sep);
        assert(joined(x, sep) + sep + joined(y.drop_last(), sep) + sep + y.last() == joined(x, sep)
            + sep + (joined(y.drop_last(), sep) + sep + y.last()));
    }
}

/// The text of a type is written token by token: a single token's text is its text as
/// written (an identifier's or another token's own text, a delimited group's whole text,
/// delimiters included), a type of no tokens has no text, and the text of two runs of
/// tokens one after the other is the first run's text, a single space, and the second
/// run's text.
pub proof fn lemma_type_text_parts(a: Seq<TypeToken>, b: Seq<TypeToken>, t: TypeToken)
    ensures
        t matches TypeToken::Ident(s) ==> type_text(seq![t]) == s@,
        t matches TypeToken::Other(s) ==> type_text(seq![t]) == s@,
        t matches TypeToken::Group { text, .. } ==> type_text(seq![t]) == text@,
        type_text(Seq::<TypeToken>::empty()) == Seq::<char>::empty(),
        a.len() > 0 && b.len() > 0 ==> type_text(a + b) == type_text(a) + " "@ + type_text(b),
{
    let f = |u: TypeToken| token_text(u);
    assert(seq![t].map_values(f) == seq![token_text(t)]);
    assert(Seq::<TypeToken>::empty().map_values(f) == Seq::<Seq<char>>::empty());
    if a.len() > 0 && b.len() > 0 {
        assert((a + b).map_values(f) == a.map_values(f) + b.map_values(f));
        lemma_joined_concat(a.map_values(f), b.map_values(f), " "@);
    }
}

fn collect_identifiers(tokens: &Vec<TypeToken>, result: &mut Vec<String>)
    ensures
        texts(final(result)@) == texts(old(result)@) + identifiers(tokens@),
    decreases tokens@,
{
    let mut i: usize = 0;
    assert(tokens@.take(0) == Seq::<TypeToken>::empty());
    while i < tokens.len()
        invariant
            i <= tokens@.len(),
            texts(result@) == texts(old(result)@) + identifiers(tokens@.take(i as int)),
        decreases tokens@.len() - i,
    {
        assert(tokens@.take(i + 1).drop_last() == tokens@.take(i as int));
        assert(tokens@.take(i + 1).last() == tokens@[i as int]);
        match &tokens[i] {
            TypeToken::Ident(name) => {
                result.push(name.clone());
                assert(texts(result@) == texts(old(result)@) + identifiers(tokens@.take(i as int)) + seq![name@]);
            },
            TypeToken::Group { inner, .. } => {
                assert(decreases_to!(tokens@ => inner@));
                collect_identifiers(inner, result);
            },
            TypeToken::Other(_) => {},
        }
        i = i + 1;
    }
    assert(tokens@.take(i as int) == tokens@);
}

fn type_string(ty: &Vec<TypeToken>) -> (r: String)
    ensures
        r@ == type_text(ty@),
{
    let ghost texts_of = ty@.map_values(|t: TypeToken| token_text(t));
    let mut out = String::new();
    let mut i: usize = 0;
    while i < ty.len()
        invariant
            i <= ty@.len(),
            texts_of == ty@.map_values(|t: TypeToken| token_text(t)),
            out@ == joined(texts_of.take(i as int), " "@),
        decreases ty@.len() - i,
    {
        assert(texts_of.take(i + 1).drop_last() == texts_of.take(i as int));
        assert(texts_of.take(i + 1).last() == token_text(ty@[i as int]));
        if i > 0 {
            out.append(" ");
        }
        match &ty[i] {
            TypeToken::Ident(text) => out.append(text.as_str()),
            TypeToken::Group { text, .. } => out.append(text.as_str()),
            TypeToken::Other(text) => out.append(text.as_str()),
        }
        if i == 0 {
            assert(texts_of.take(1) == seq![texts_of[0]]);
        }
        i = i + 1;
    }
    assert(texts_of.take(i as int) == texts_of);
    out
}

/// One attribute of a field, as its tokens were read.
#[derive(Debug, PartialEq, Eq)]
pub enum TaggedAttribute<T, E> {
    /// An attribute that is not `#[bincode(...)]`.
    Foreign,
    /// A `#[bincode(...)]` attribute: its token and its entries.
    Bincode { group: T, entries: Vec<AttributeEntry<T>> },
    /// A `#[bincode(...)]` attribute whose tokens could not be read as entries.
    Malformed(E),
}

/// One field of a struct or an enum variant: its attributes and the tokens of its type.
#[derive(Debug, PartialEq, Eq)]
pub struct FieldTokens<T, E> {
    pub attributes: Vec<TaggedAttribute<T, E>>,
    pub ty: Vec<TypeToken>,
}

/// Why the fields' bounds could not be worked out.
#[derive(Debug, Clone, PartialEq, Eq)]
pub enum BoundsError<T, E> {
    /// A bincode attribute was rejected.
    Attribute(AttributeError<T>),
    /// A bincode attribute's tokens could not be read.
    Malformed(E),
}

/// The options of a field with the attributes `attrs`: those of its first bincode
/// attribute, or none where it has no bincode attribute.
pub open spec fn field_options<T, E>(attrs: Seq<TaggedAttribute<T, E>>) -> Result<
    FieldModel,
    BoundsError<T, E>,
>
    decreases attrs.len(),
{
    if attrs.len() == 0 {
        Ok(default_field())
    } else {
        match attrs[0] {
            TaggedAttribute::Foreign => field_options(attrs.drop_first()),
            TaggedAttribute::Bincode { group, entries } => match field_checked(group, entries@) {
                Ok(f) => Ok(f),
                Err(e) => Err(BoundsError::Attribute(e)),
            },
            TaggedAttribute::Malformed(e) => Err(BoundsError::Malformed(e)),
        }
    }
}

fn first_field_options<T, E>(attributes: Vec<TaggedAttribute<T, E>>) -> (r: Result<
    FieldAttributes,
    BoundsError<T, E>,
>)
    ensures
        match field_options(attributes@) {
            Ok(f) => r matches Ok(res) && res@ == f,
            Err(e) => r == Err::<FieldAttributes, BoundsError<T, E>>(e),
        },
{
    let ghost all = attributes@;
    assert(all.len() == attributes.len());
    let mut remaining = attributes;
    let ghost mut k: int = 0;
    assert(all.skip(0) == all);
    while remaining.len() > 0
        invariant
            0 <= k <= all.len(),
            all == attributes@,
            remaining@ == all.skip(k),
            field_options(all) == field_options(all.skip(k)),
        decreases remaining.len(),
    {
        let attribute = remaining.remove(0);
        proof {
            assert(all.skip(k)[0] == attribute);
            assert(all.skip(k).drop_first() == all.skip(k + 1));
            k = k + 1;
        }
        match attribute {
            TaggedAttribute::Foreign => {},
            TaggedAttribute::Bincode { group, entries } => {
                return match FieldAttributes::parse(group, entries) {
                    Ok(f) => Ok(f),
                    Err(e) => Err(BoundsError::Attribute(e)),
                };
            },
            TaggedAttribute::Malformed(e) => {
                return Err(BoundsError::Malformed(e));
            },
        }
    }
    Ok(FieldAttributes::default())
}

/// The meaning of `FieldBounds`.
pub struct FieldBoundsModel {
    /// Whether some field is skipped.
    pub has_skipped: bool,
    /// The identifiers in the types of the fields that are encoded.
    pub identifiers: Set<Seq<char>>,
    /// A `Default` bound on the type of each skipped field that has no default function.
    pub defaults: Seq<Seq<char>>,
}

/// The bounds before any field.
pub open spec fn no_bounds() -> FieldBoundsModel {
    FieldBoundsModel { has_skipped: false, identifiers: Set::empty(), defaults: Seq::empty() }
}

/// The bounds after a field with options `f` and type `ty`: a skipped field marks the
/// fields as having a skipped one and, where it has no default function, asks for
/// `Default` on its type; an encoded field adds the identifiers of its type.
pub open spec fn bounds_with_field(
    b: FieldBoundsModel,
    f: FieldModel,
    ty: Seq<TypeToken>,
) -> FieldBoundsModel {
    if f.skip {
        FieldBoundsModel {
            has_skipped: true,
            defaults: if f.default is None {
                b.defaults.push(type_text(ty) + ": core::default::Default"@)
            } else {
                b.defaults
            },
            ..b
        }
    } else {
        FieldBoundsModel { identifiers: b.identifiers + identifiers(ty).to_set(), ..b }
    }
}

/// The bounds after the fields `fields`, in order, starting from `b`; the first field
/// whose options are rejected rejects them all.
pub open spec fn bounds_after_fields<T, E>(
    b: FieldBoundsModel,
    fields: Seq<FieldTokens<T, E>>,
) -> Result<FieldBoundsModel, BoundsError<T, E>>
    decreases fields.len(),
{
    if fields.len() == 0 {
        Ok(b)
    } else {
        match bounds_after_fields(b, fields.drop_last()) {
            Ok(b1) => match field_options(fields.last().attributes@) {
                Ok(f) => Ok(bounds_with_field(b1, f, fields.last().ty@)),
                Err(e) => Err(e),
            },
            Err(e) => Err(e),
        }
    }
}

/// The bounds after the groups of fields `groups`, in order, starting from `b`.
pub open spec fn bounds_after_groups<T, E>(
    b: FieldBoundsModel,
    groups: Seq<Vec<FieldTokens<T, E>>>,
) -> Result<FieldBoundsModel, BoundsError<T, E>>
    decreases groups.len(),
{
    if groups.len() == 0 {
        Ok(b)
    } else {
        match bounds_after_groups(b, groups.drop_last()) {
            Ok(b1) => bounds_after_fields(b1, groups.last()@),
            Err(e) => Err(e),
        }
    }
}

/// Skipped fields need no codec bounds: the identifiers that the fields add are exactly
/// those in the types of the fields that are encoded, and the fields' options decide
/// whether any is skipped.
pub proof fn lemma_bounds_from_encoded_fields<T, E>(
    b: FieldBoundsModel,
    fields: Seq<FieldTokens<T, E>>,
)
    requires
        bounds_after_fields(b, fields) is Ok,
    ensures
        forall|x: Seq<char>|
            #![trigger bounds_after_fields(b, fields)->Ok_0.identifiers.contains(x)]
            bounds_after_fields(b, fields)->Ok_0.identifiers.contains(x) <==> (b.identifiers.contains(x)
                || exists|i: int|
                0 <= i < fields.len() && !field_options(fields[i].attributes@)->Ok_0.skip
                    && #[trigger] identifiers(fields[i].ty@).contains(x)),
        bounds_after_fields(b, fields)->Ok_0.has_skipped <==> (b.has_skipped || exists|i: int|
            0 <= i < fields.len() && #[trigger] field_options(fields[i].attributes@)->Ok_0.skip),
        forall|i: int|
            0 <= i < fields.len() ==> #[trigger] field_options(fields[i].attributes@) is Ok,
    decreases fields.len(),
{
    if fields.len() > 0 {
        let init = fields.drop_last();
        lemma_bounds_from_encoded_fields(b, init);
        let last = fields.last();
        assert forall|i: int| 0 <= i < init.len() implies init[i] == fields[i] by {}
        assert forall|x: Seq<char>|
            bounds_after_fields(b, fields)->Ok_0.identifiers.contains(x) <==> (b.identifiers.contains(x)
                || exists|i: int|
                0 <= i < fields.len() && !field_options(fields[i].attributes@)->Ok_0.skip
                    && #[trigger] identifiers(fields[i].ty@).contains(x)) by {
            if bounds_after_fields(b, fields)->Ok_0.identifiers.contains(x) && !b.identifiers.contains(x) {
                if bounds_after_fields(b, init)->Ok_0.identifiers.contains(x) {
                    let i = choose|i: int|
                        0 <= i < init.len() && !field_options(init[i].attributes@)->Ok_0.skip
                            && #[trigger] identifiers(init[i].ty@).contains(x);
                    assert(init[i] == fields[i]);
                } else {
                    assert(fields[fields.len() - 1] == last);
                }
            }
            if exists|i: int|
                0 <= i < fields.len() && !field_options(fields[i].attributes@)->Ok_0.skip
                    && #[trigger] identifiers(fields[i].ty@).contains(x) {
                let i = choose|i: int|
                    0 <= i < fields.len() && !field_options(fields[i].attributes@)->Ok_0.skip
                        && #[trigger] identifiers(fields[i].ty@).contains(x);
                if i < init.len() {
                    assert(init[i] == fields[i]);
                }
            }
        }
        if exists|i: int| 0 <= i < fields.len() && #[trigger] field_options(fields[i].attributes@)->Ok_0.skip {
            let i = choose|i: int| 0 <= i < fields.len() && #[trigger] field_options(fields[i].attributes@)->Ok_0.skip;
            if i < init.len() {
                assert(init[i] == fields[i]);
            }
        }
    }
}

/// One more field: a skipped field with no default function asks for a `Default` bound
/// written as its type's text followed by `: core::default::Default`, a skipped field with
/// a default function asks for none, and both mark the fields as having a skipped one; an
/// encoded field adds the identifiers of its type and nothing else.
pub proof fn lemma_bounds_one_more_field<T, E>(
    b: FieldBoundsModel,
    fields: Seq<FieldTokens<T, E>>,
    field: FieldTokens<T, E>,
)
    requires
        bounds_after_fields(b, fields) is Ok,
        field_options(field.attributes@) is Ok,
    ensures
        ({
            let before = bounds_after_fields(b, fields)->Ok_0;
            let after = bounds_after_fields(b, fields.push(field));
            let f = field_options(field.attributes@)->Ok_0;
            &&& after is Ok
            &&& f.skip ==> after->Ok_0.has_skipped && after->Ok_0.identifiers
                == before.identifiers
            &&& f.skip && f.default is None ==> after->Ok_0.defaults == before.defaults.push(
                type_text(field.ty@) + ": core::default::Default"@,
            )
            &&& f.skip && f.default is Some ==> after->Ok_0.defaults == before.defaults
            &&& !f.skip ==> after->Ok_0.has_skipped == before.has_skipped
                && after->Ok_0.defaults == before.defaults && forall|x: Seq<char>|
                #[trigger] after->Ok_0.identifiers.contains(x) <==> before.identifiers.contains(x)
                    || identifiers(field.ty@).contains(x)
        }),
{
    assert(fields.push(field).drop_last() == fields);
    assert(fields.push(field).last() == field);
}

proof fn lemma_fields_error_stays<T, E>(b: FieldBoundsModel, all: Seq<FieldTokens<T, E>>, j: int)
    requires
        0 <= j <= all.len(),
        bounds_after_fields(b, all.take(j)) is Err,
    ensures
        bounds_after_fields(b, all) == bounds_after_fields(b, all.take(j)),
    decreases all.len() - j,
{
    if j < all.len() {
        assert(all.take(j + 1).drop_last() == all.take(j));
        lemma_fields_error_stays(b, all, j + 1);
    } else {
        assert(all.take(j) == all);
    }
}

proof fn lemma_groups_error_stays<T, E>(
    b: FieldBoundsModel,
    all: Seq<Vec<FieldTokens<T, E>>>,
    j: int,
)
    requires
        0 <= j <= all.len(),
        bounds_after_groups(b, all.take(j)) is Err,
    ensures
        bounds_after_groups(b, all) == bounds_after_groups(b, all.take(j)),
    decreases all.len() - j,
{
    if j < all.len() {
        assert(all.take(j + 1).drop_last() == all.take(j));
        lemma_groups_error_stays(b, all, j + 1);
    } else {
        assert(all.take(j) == all);
    }
}

/// The generic bounds that the fields of a type call for, given which fields are skipped:
/// identifiers in the types of encoded fields, and `Default` bounds for skipped fields.
#[derive(Debug, Clone, PartialEq, Eq)]
pub struct FieldBounds {
    has_skipped: bool,
    // A set of identifiers, kept in a `Vec`: only membership is asked of it, and vstd
    // specifies `HashSet` lookups only for keys whose hashing it models, which `String`
    // keys are not.
    encoded_identifiers: Vec<String>,
    pub defaults: Vec<String>,
}

impl View for FieldBounds {
    type V = FieldBoundsModel;

    closed spec fn view(&self) -> FieldBoundsModel {
        FieldBoundsModel {
            has_skipped: self.has_skipped,
            identifiers: texts(self.encoded_identifiers@).to_set(),
            defaults: texts(self.defaults@),
        }
    }
}

impl FieldBounds {
    fn add_fields<T, E>(&mut self, fields: Vec<FieldTokens<T, E>>) -> (r: Result<
        (),
        BoundsError<T, E>,
    >)
        ensures
            match bounds_after_fields(old(self)@, fields@) {
                Ok(b) => r is Ok && final(self)@ == b,
                Err(e) => r == Err::<(), BoundsError<T, E>>(e),
            },
    {
        let ghost all = fields@;
        let ghost start = self@;
        assert(all.len() == fields.len());
        let mut remaining = fields;
        let mut k: usize = 0;
        assert(all.take(0) == Seq::<FieldTokens<T, E>>::empty());
        while remaining.len() > 0
            invariant
                k <= all.len(),
                all == fields@,
                all.len() <= usize::MAX,
                start == old(self)@,
                remaining@ == all.skip(k as int),
                bounds_after_fields(start, all.take(k as int)) == Ok::<
                    FieldBoundsModel,
                    BoundsError<T, E>,
                >(self@),
            decreases remaining.len(),
        {
            let field = remaining.remove(0);
            let ghost before = self@;
            proof {
                assert(all.take(k + 1).drop_last() == all.take(k as int));
                assert(all.take(k + 1).last() == field);
            }
            let FieldTokens { attributes, ty } = field;
            let options = match first_field_options(attributes) {
                Ok(options) => options,
                Err(e) => {
                    proof {
                        lemma_fields_error_stays(start, all, k + 1);
                    }
                    return Err(e);
                },
            };
            if options.skip {
                self.has_skipped = true;
                if options.default.is_none() {
                    let bound = type_string(&ty).concat(": core::default::Default");
                    self.defaults.push(bound);
                    assert(texts(self.defaults@) == before.defaults.push(bound@));
                }
            } else {
                let ghost old_ids = self.encoded_identifiers@;
                collect_identifiers(&ty, &mut self.encoded_identifiers);
                assert(texts(self.encoded_identifiers@).to_set() == texts(old_ids).to_set()
                    + identifiers(ty@).to_set()) by {
                    vstd::seq_lib::seq_to_set_distributes_over_add(texts(old_ids), identifiers(ty@));
                }
            }
            k = k + 1;
        }
        assert(all.take(k as int) == all);
        Ok(())
    }

    /// Works out the bounds for the fields of a struct or of the variants of an enum,
    /// given as groups of fields.
    pub fn new<T, E>(groups: Vec<Vec<FieldTokens<T, E>>>) -> (r: Result<
        FieldBounds,
        BoundsError<T, E>,
    >)
        ensures
            match bounds_after_groups(no_bounds(), groups@) {
                Ok(b) => r matches Ok(res) && res@ == b,
                Err(e) => r == Err::<FieldBounds, BoundsError<T, E>>(e),
            },
    {
        let ghost all = groups@;
        assert(all.len() == groups.len());
        let mut remaining = groups;
        let mut result = FieldBounds {
            has_skipped: false,
            encoded_identifiers: Vec::new(),
            defaults: Vec::new(),
        };
        assert(texts(result.encoded_identifiers@).to_set() == Set::<Seq<char>>::empty());
        assert(texts(result.defaults@) == Seq::<Seq<char>>::empty());
        let mut k: usize = 0;
        assert(all.take(0) == Seq::<Vec<FieldTokens<T, E>>>::empty());
        while remaining.len() > 0
            invariant
                k <= all.len(),
                all == groups@,
                all.len() <= usize::MAX,
                remaining@ == all.skip(k as int),
                bounds_after_groups(no_bounds(), all.take(k as int)) == Ok::<
                    FieldBoundsModel,
                    BoundsError<T, E>,
                >(result@),
            decreases remaining.len(),
        {
            let fields = remaining.remove(0);
            proof {
                assert(all.take(k + 1).drop_last() == all.take(k as int));
                assert(all.take(k + 1).last() == fields);
            }
            if let Err(e) = result.add_fields(fields) {
                proof {
                    lemma_groups_error_stays(no_bounds(), all, k + 1);
                }
                return Err(e);
            }
            k = k + 1;
        }
        assert(all.take(k as int) == all);
        Ok(result)
    }

    /// The `Default` bounds, one for each skipped field that has no default function.
    pub fn defaults(&self) -> (d: &Vec<String>)
        ensures
            texts(d@) == self@.defaults,
    {
        &self.defaults
    }

    /// Whether a generic parameter named `ident` needs the codec bounds: always when no
    /// field is skipped, and otherwise when it occurs in the type of an encoded field.
    pub fn encodes(&self, ident: &str) -> (r: bool)
        ensures
            r == (!self@.has_skipped || self@.identifiers.contains(ident@)),
    {
        if !self.has_skipped {
            return true;
        }
        let target = ident.to_owned();
        let mut i: usize = 0;
        while i < self.encoded_identifiers.len()
            invariant
                i <= self.encoded_identifiers@.len(),
                target@ == ident@,
                forall|j: int| 0 <= j < i ==> self.encoded_identifiers@[j]@ != ident@,
            decreases self.encoded_identifiers@.len() - i,
        {
            if self.encoded_identifiers[i] == target {
                assert(texts(self.encoded_identifiers@)[i as int] == ident@);
                return true;
            }
            i = i + 1;
        }
        assert(!texts(self.encoded_identifiers@).contains(ident@));
        false
    }
}

} // verus!


