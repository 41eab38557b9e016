//! The package aggregate and its record in the binary layout.

use crate::wire::{
    count_prefix, id_fields, le32, lemma_take_frame_of_framed, lemma_take_u32_of_le32, optional_text_field, option_text, put_count, put_text, put_u32,
    take_ids, take_optional_text, take_text, take_u32, text_field, DecodeError, Reader,
};
use vstd::prelude::*;
use vstd::utf8::*;

verus! {

/// What the index holds of one package.
#[derive(Debug, Clone, PartialEq, Eq)]
pub struct Crate {
    pub name: String,
    pub repository: Option<String>,
    pub homepage: Option<String>,
    pub documentation: Option<String>,
    pub description: String,
    /// The greatest version without a pre-release tag.
    pub latest_stable_version: Option<String>,
    /// The greatest version with a pre-release tag.
    pub latest_version: Option<String>,
    pub categories: Vec<u32>,
    pub keywords: Vec<u32>,
    pub num_versions: u32,
    /// The popularity count by which packages are ranked.
    pub order: u32,
}

/// The mathematical content of a [`Crate`].
pub ghost struct CrateView {
    pub name: Seq<char>,
    pub repository: Option<Seq<char>>,
    pub homepage: Option<Seq<char>>,
    pub documentation: Option<Seq<char>>,
    pub description: Seq<char>,
    pub latest_stable_version: Option<Seq<char>>,
    pub latest_version: Option<Seq<char>>,
    pub categories: Seq<u32>,
    pub keywords: Seq<u32>,
    pub num_versions: u32,
    pub order: u32,
}

impl View for Crate {
    type V = CrateView;

    open spec fn view(&self) -> CrateView {
        CrateView {
            name: self.name@,
            repository: option_text(self.repository),
            homepage: option_text(self.homepage),
            documentation: option_text(self.documentation),
            description: self.description@,
            latest_stable_version: option_text(self.latest_stable_version),
            latest_version: option_text(self.latest_version),
            categories: self.categories@,
            keywords: self.keywords@,
            num_versions: self.num_versions,
            order: self.order,
        }
    }
}

/// Whether a text's UTF-8 form can be announced by a 32-bit byte count.
pub open spec fn text_fits(text: Seq<char>) -> bool {
    encode_utf8(text).len() < 0x1_0000_0000
}

/// Whether an optional text, if present, fits.
pub open spec fn optional_text_fits(text: Option<Seq<char>>) -> bool {
    text matches Some(t) ==> text_fits(t)
}

/// What an optional text reads back as: an empty text is taken for absent.
pub open spec fn collapse(text: Option<Seq<char>>) -> Option<Seq<char>> {
    match text {
        Some(t) => if t.len() == 0 {
            None
        } else {
            Some(t)
        },
        None => None,
    }
}

/// Whether an optional text is absent or not empty.
pub open spec fn absent_or_nonempty(text: Option<Seq<char>>) -> bool {
    text matches Some(t) ==> t.len() > 0
}

impl CrateView {
    /// Whether every count and byte length of the package fits the 32-bit
    /// prefix that announces it.
    pub open spec fn fits(self) -> bool {
        &&& self.keywords.len() < 0x1_0000_0000
        &&& self.categories.len() < 0x1_0000_0000
        &&& text_fits(self.name)
        &&& text_fits(self.description)
        &&& optional_text_fits(self.repository)
        &&& optional_text_fits(self.homepage)
        &&& optional_text_fits(self.documentation)
        &&& optional_text_fits(self.latest_stable_version)
        &&& optional_text_fits(self.latest_version)
    }

    /// Whether no optional field holds an empty text.
    pub open spec fn no_empty_optional(self) -> bool {
        &&& absent_or_nonempty(self.repository)
        &&& absent_or_nonempty(self.homepage)
        &&& absent_or_nonempty(self.documentation)
        &&& absent_or_nonempty(self.latest_stable_version)
        &&& absent_or_nonempty(self.latest_version)
    }

    /// The package with every empty optional text taken for absent.
    pub open spec fn collapsed(self) -> CrateView {
        CrateView {
            repository: collapse(self.repository),
            homepage: collapse(self.homepage),
            documentation: collapse(self.documentation),
            latest_stable_version: collapse(self.latest_stable_version),
            latest_version: collapse(self.latest_version),
            ..self
        }
    }
}

/// A counted list of identifiers: the count, then each identifier.
pub open spec fn id_list(ids: Seq<u32>) -> Seq<u8> {
    count_prefix(ids.len()) + id_fields(ids)
}

/// The five optional texts of a record, in the order of the layout.
pub open spec fn links(c: CrateView) -> Seq<u8> {
    optional_text_field(c.repository) + optional_text_field(c.homepage) + optional_text_field(
        c.documentation,
    ) + optional_text_field(c.latest_stable_version) + optional_text_field(c.latest_version)
}

/// The record of a package: its fields in the fixed order of the layout.
#[verifier::opaque]
pub open spec fn record(c: CrateView) -> Seq<u8> {
    le32(c.order) + le32(c.num_versions) + id_list(c.keywords) + id_list(c.categories)
        + text_field(c.name) + text_field(c.description) + links(c)
}

/// Reads a counted list of identifiers from the front of `s`.
pub open spec fn take_id_list(s: Seq<u8>) -> Result<(Seq<u32>, Seq<u8>), DecodeError> {
    match take_u32(s) {
        Err(e) => Err(e),
        Ok((n, rest)) => take_ids(rest, n as nat),
    }
}

/// The package that the front of `s` holds. Bytes after the last field are
/// not looked at.
#[verifier::opaque]
pub open spec fn parse_record(s: Seq<u8>) -> Result<CrateView, DecodeError> {
    match take_u32(s) {
        Err(e) => Err(e),
        Ok((order, s1)) => match take_u32(s1) {
            Err(e) => Err(e),
            Ok((num_versions, s2)) => match take_id_list(s2) {
                Err(e) => Err(e),
                Ok((keywords, s3)) => match take_id_list(s3) {
                    Err(e) => Err(e),
                    Ok((categories, s4)) => match take_text(s4) {
                        Err(e) => Err(e),
                        Ok((name, s5)) => match take_text(s5) {
                            Err(e) => Err(e),
                            Ok((description, s6)) => parse_links(
                                s6,
                                CrateView {
                                    name,
                                    repository: None,
                                    homepage: None,
                                    documentation: None,
                                    description,
                                    latest_stable_version: None,
                                    latest_version: None,
                                    categories,
                                    keywords,
                                    num_versions,
                                    order,
                                },
                            ),
                        },
                    },
                },
            },
        },
    }
}

/// Reads the five optional texts from the front of `s` into `head`.
pub open spec fn parse_links(s: Seq<u8>, head: CrateView) -> Result<CrateView, DecodeError> {
    match take_optional_text(s) {
        Err(e) => Err(e),
        Ok((repository, s1)) => match take_optional_text(s1) {
            Err(e) => Err(e),
            Ok((homepage, s2)) => match take_optional_text(s2) {
                Err(e) => Err(e),
                Ok((documentation, s3)) => match take_optional_text(s3) {
                    Err(e) => Err(e),
                    Ok((latest_stable_version, s4)) => match take_optional_text(s4) {
                        Err(e) => Err(e),
                        Ok((latest_version, s5)) => Ok(
                            CrateView {
                                repository,
                                homepage,
                                documentation,
                                latest_stable_version,
                                latest_version,
                                ..head
                            },
                        ),
                    },
                },
            },
        },
    }
}

/// Appends a counted list of identifiers to `out`.
pub fn put_id_list(out: &mut Vec<u8>, ids: &Vec<u32>)
    ensures
        final(out)@ == old(out)@ + id_list(ids@),
{
    put_count(out, ids.len());
    let ghost start = out@;
    let mut i: usize = 0;
    assert(ids@.skip(0) =~= ids@);
    while i < ids.len()
        invariant
            i <= ids.len(),
            out@ + id_fields(ids@.skip(i as int)) == start + id_fields(ids@),
        decreases ids.len() - i,
    {
        let ghost before = out@;
        put_u32(out, ids[i]);
        proof {
            let tail = ids@.skip(i as int);
            assert(tail.skip(1) =~= ids@.skip(i + 1));
            assert(tail[0] == ids@[i as int]);
            assert(out@ + id_fields(ids@.skip(i + 1)) =~= before + id_fields(tail));
        }
        i = i + 1;
    }
    assert(out@ + id_fields(ids@.skip(i as int)) =~= out@);
    assert(old(out)@ + id_list(ids@) =~= start + id_fields(ids@));
}

/// Appends an optional text field to `out`.
pub fn put_optional_text(out: &mut Vec<u8>, text: &Option<String>)
    ensures
        final(out)@ == old(out)@ + optional_text_field(option_text(*text)),
{
    match text {
        Some(t) => put_text(out, t.as_str()),
        None => {
            put_count(out, 0);
            assert(encode_utf8(Seq::<char>::empty()) =~= Seq::<u8>::empty());
            assert(out@ =~= old(out)@ + text_field(Seq::<char>::empty()));
        },
    }
}

impl Crate {
    /// The record of this package.
    pub fn to_vec(self) -> (bytes: Vec<u8>)
        ensures
            bytes@ == record(self@),
    {
        self.to_bytes()
    }

    /// Reads the package that the front of `data` holds.
    pub fn from_vec(data: Vec<u8>) -> (r: Result<Crate, DecodeError>)
        ensures
            match parse_record(data@) {
                Ok(c) => r is Ok && r->Ok_0@ == c,
                Err(e) => r == Err::<Crate, DecodeError>(e),
            },
    {
        Crate::from_bytes(data.as_slice())
    }

    /// The record of this package, which stays with the caller.
    pub fn to_bytes(&self) -> (bytes: Vec<u8>)
        ensures
            bytes@ == record(self@),
    {
        reveal(record);
        let mut out: Vec<u8> = Vec::new();
        put_u32(&mut out, self.order);
        put_u32(&mut out, self.num_versions);
        put_id_list(&mut out, &self.keywords);
        put_id_list(&mut out, &self.categories);
        put_text(&mut out, self.name.as_str());
        put_text(&mut out, self.description.as_str());
        let ghost head = out@;
        put_optional_text(&mut out, &self.repository);
        put_optional_text(&mut out, &self.homepage);
        put_optional_text(&mut out, &self.documentation);
        put_optional_text(&mut out, &self.latest_stable_version);
        put_optional_text(&mut out, &self.latest_version);
        assert(out@ =~= head + links(self@));
        assert(out@ =~= record(self@));
        out
    }

    /// Reads the package that the front of `data` holds.
    pub fn from_bytes(data: &[u8]) -> (r: Result<Crate, DecodeError>)
        ensures
            match parse_record(data@) {
                Ok(c) => r is Ok && r->Ok_0@ == c,
                Err(e) => r == Err::<Crate, DecodeError>(e),
            },
    {
        reveal(parse_record);
        let mut reader = Reader::new(data);
        let order = reader.read_u32()?;
        let num_versions = reader.read_u32()?;
        let keywords_len = reader.read_u32()?;
        let keywords = reader.read_ids(keywords_len)?;
        let categories_len = reader.read_u32()?;
        let categories = reader.read_ids(categories_len)?;
        let name = reader.read_text()?;
        let description = reader.read_text()?;
        let repository = reader.read_optional_text()?;
        let homepage = reader.read_optional_text()?;
        let documentation = reader.read_optional_text()?;
        let latest_stable_version = reader.read_optional_text()?;
        let latest_version = reader.read_optional_text()?;
        Ok(
            Crate {
                name,
                repository,
                homepage,
                documentation,
                description,
                latest_stable_version,
                latest_version,
                categories,
                keywords,
                num_versions,
                order,
            },
        )
    }
}

/// Reading back the identifiers that `id_fields` wrote gives them again.
pub proof fn lemma_take_ids_of_fields(ids: Seq<u32>, rest: Seq<u8>)
    ensures
        take_ids(id_fields(ids) + rest, ids.len()) == Ok::<(Seq<u32>, Seq<u8>), DecodeError>(
            (ids, rest),
        ),
    decreases ids.len(),
{
    if ids.len() == 0 {
        assert(id_fields(ids) + rest =~= rest);
        assert(ids =~= Seq::<u32>::empty());
    } else {
        let tail = ids.skip(1);
        assert(id_fields(ids) + rest =~= le32(ids[0]) + (id_fields(tail) + rest));
        lemma_take_u32_of_le32(ids[0], id_fields(tail) + rest);
        lemma_take_ids_of_fields(tail, rest);
        assert(seq![ids[0]] + tail =~= ids);
    }
}

/// Reading back a counted list of identifiers gives the identifiers again.
pub proof fn lemma_take_id_list(ids: Seq<u32>, rest: Seq<u8>)
    requires
        ids.len() < 0x1_0000_0000,
    ensures
        take_id_list(id_list(ids) + rest) == Ok::<(Seq<u32>, Seq<u8>), DecodeError>((ids, rest)),
{
    let n = (ids.len() % 0x1_0000_0000) as u32;
    assert(id_list(ids) + rest =~= le32(n) + (id_fields(ids) + rest));
    lemma_take_u32_of_le32(n, id_fields(ids) + rest);
    lemma_take_ids_of_fields(ids, rest);
}

/// Reading back a text field gives the text again.
pub proof fn lemma_take_text_of_field(text: Seq<char>, rest: Seq<u8>)
    requires
        text_fits(text),
    ensures
        take_text(text_field(text) + rest) == Ok::<(Seq<char>, Seq<u8>), DecodeError>(
            (text, rest),
        ),
{
    lemma_take_frame_of_framed(encode_utf8(text), rest);
    encode_utf8_valid_utf8(text);
    encode_utf8_decode_utf8(text);
}

/// Reading back an optional text field gives the text again, but for an
/// empty text, which reads as absent.
pub proof fn lemma_take_optional_text_of_field(text: Option<Seq<char>>, rest: Seq<u8>)
    requires
        optional_text_fits(text),
    ensures
        take_optional_text(optional_text_field(text) + rest) == Ok::<
            (Option<Seq<char>>, Seq<u8>),
            DecodeError,
        >((collapse(text), rest)),
{
    let t = match text {
        Some(t) => t,
        None => Seq::<char>::empty(),
    };
    assert(encode_utf8(Seq::<char>::empty()) =~= Seq::<u8>::empty());
    assert(optional_text_field(text) == text_field(t));
    assert((text_field(t) + rest).len() >= 4);
    lemma_take_text_of_field(t, rest);
}

/// Concatenation may be regrouped.
proof fn lemma_regroup(a: Seq<u8>, b: Seq<u8>, c: Seq<u8>)
    ensures
        (a + b) + c == a + (b + c),
{
    assert((a + b) + c =~= a + (b + c));
}

/// Reading back the five optional texts of a package gives them again,
/// each empty one taken for absent.
pub proof fn lemma_parse_links(c: CrateView, head: CrateView)
    requires
        c.fits(),
    ensures
        parse_links(links(c), head) == Ok::<CrateView, DecodeError>(
            CrateView {
                repository: collapse(c.repository),
                homepage: collapse(c.homepage),
                documentation: collapse(c.documentation),
                latest_stable_version: collapse(c.latest_stable_version),
                latest_version: collapse(c.latest_version),
                ..head
            },
        ),
{
    let f1 = optional_text_field(c.repository);
    let f2 = optional_text_field(c.homepage);
    let f3 = optional_text_field(c.documentation);
    let f4 = optional_text_field(c.latest_stable_version);
    let f5 = optional_text_field(c.latest_version);
    let r5 = Seq::<u8>::empty();
    let r4 = f5 + r5;
    let r3 = f4 + r4;
    let r2 = f3 + r3;
    let r1 = f2 + r2;
    assert(links(c) == f1 + r1) by {
        assert(r4 =~= f5);
        lemma_regroup(f1 + f2 + f3, f4, f5);
        lemma_regroup(f1 + f2, f3, r3);
        lemma_regroup(f1, f2, r2);
    }
    lemma_take_optional_text_of_field(c.repository, r1);
    lemma_take_optional_text_of_field(c.homepage, r2);
    lemma_take_optional_text_of_field(c.documentation, r3);
    lemma_take_optional_text_of_field(c.latest_stable_version, r4);
    lemma_take_optional_text_of_field(c.latest_version, r5);
}

/// Decoding the record of a package gives the package again, with every
/// empty optional text taken for absent.
pub proof fn lemma_parse_of_record(c: CrateView)
    requires
        c.fits(),
    ensures
        parse_record(record(c)) == Ok::<CrateView, DecodeError>(c.collapsed()),
{
    reveal(record);
    reveal(parse_record);
    let f1 = le32(c.order);
    let f2 = le32(c.num_versions);
    let f3 = id_list(c.keywords);
    let f4 = id_list(c.categories);
    let f5 = text_field(c.name);
    let f6 = text_field(c.description);
    let r6 = links(c);
    let r5 = f6 + r6;
    let r4 = f5 + r5;
    let r3 = f4 + r4;
    let r2 = f3 + r3;
    let r1 = f2 + r2;
    assert(record(c) == f1 + r1) by {
        lemma_regroup(f1 + f2 + f3 + f4 + f5, f6, r6);
        lemma_regroup(f1 + f2 + f3 + f4, f5, r5);
        lemma_regroup(f1 + f2 + f3, f4, r4);
        lemma_regroup(f1 + f2, f3, r3);
        lemma_regroup(f1, f2, r2);
    }
    let head = CrateView {
        name: c.name,
        repository: None,
        homepage: None,
        documentation: None,
        description: c.description,
        latest_stable_version: None,
        latest_version: None,
        categories: c.categories,
        keywords: c.keywords,
        num_versions: c.num_versions,
        order: c.order,
    };
    lemma_take_u32_of_le32(c.order, r1);
    lemma_take_u32_of_le32(c.num_versions, r2);
    lemma_take_id_list(c.keywords, r3);
    lemma_take_id_list(c.categories, r4);
    lemma_take_text_of_field(c.name, r5);
    lemma_take_text_of_field(c.description, r6);
    lemma_parse_links(c, head);
}

/// A package whose optional fields are each absent or not empty decodes,
/// from its own record, to itself.
pub proof fn lemma_round_trip(c: CrateView)
    requires
        c.fits(),
        c.no_empty_optional(),
    ensures
        parse_record(record(c)) == Ok::<CrateView, DecodeError>(c),
{
    lemma_parse_of_record(c);
    assert(c.collapsed() == c);
}

/// An optional field that is absent in a package is absent in what its
/// record decodes to: it never comes back as a present, empty text.
pub proof fn lemma_absent_stays_absent(c: CrateView)
    requires
        c.fits(),
    ensures
        parse_record(record(c)) matches Ok(d) && {
            &&& absent_or_nonempty(d.repository)
            &&& absent_or_nonempty(d.homepage)
            &&& absent_or_nonempty(d.documentation)
            &&& absent_or_nonempty(d.latest_stable_version)
            &&& absent_or_nonempty(d.latest_version)
            &&& c.repository is None ==> d.repository is None
            &&& c.homepage is None ==> d.homepage is None
            &&& c.documentation is None ==> d.documentation is None
            &&& c.latest_stable_version is None ==> d.latest_stable_version is None
            &&& c.latest_version is None ==> d.latest_version is None
        },
{
    lemma_parse_of_record(c);
}

} // verus!
