//! The three files of the index: the ranked packages, each record framed
//! by its byte length, and the two flat tables from identifier to name.

use crate::package::{lemma_parse_of_record, parse_record, record, Crate, CrateView};
use crate::wire::{
    framed, le32, lemma_take_frame_of_framed, lemma_take_u32_of_le32, put_frame, put_text,
    put_u32, take_frame, take_text, take_u32, text_field, DecodeError, Reader,
};
use vstd::prelude::*;
use vstd::utf8::*;

verus! {

/// The mathematical contents of a sequence of packages.
pub open spec fn crate_views(crates: Seq<Crate>) -> Seq<CrateView> {
    crates.map_values(|c: Crate| c@)
}

/// The file of ranked packages: each record behind its byte length, in
/// order.
pub open spec fn dump(crates: Seq<CrateView>) -> Seq<u8>
    decreases crates.len(),
{
    if crates.len() == 0 {
        Seq::empty()
    } else {
        framed(record(crates[0])) + dump(crates.skip(1))
    }
}

/// The packages that a file of framed records holds: frames are read until
/// the input ends.
pub open spec fn parse_dump(s: Seq<u8>) -> Result<Seq<CrateView>, DecodeError>
    decreases s.len(),
{
    if s.len() == 0 {
        Ok(Seq::empty())
    } else {
        match take_frame(s) {
            Err(e) => Err(e),
            Ok((bytes, rest)) => match parse_record(bytes) {
                Err(e) => Err(e),
                Ok(c) => match parse_dump(rest) {
                    Err(e) => Err(e),
                    Ok(cs) => Ok(seq![c] + cs),
                },
            },
        }
    }
}

/// Whether each package fits its prefixes, and each record the prefix of
/// its frame.
pub open spec fn dump_fits(crates: Seq<CrateView>) -> bool {
    forall|i: int|
        0 <= i < crates.len() ==> (#[trigger] crates[i]).fits() && record(crates[i]).len()
            < 0x1_0000_0000
}

/// The packages with every empty optional text taken for absent.
pub open spec fn collapsed_all(crates: Seq<CrateView>) -> Seq<CrateView> {
    crates.map_values(|c: CrateView| c.collapsed())
}

/// Decoding the file of a sequence of packages gives the packages again,
/// in order, with every empty optional text taken for absent.
pub proof fn lemma_parse_of_dump(crates: Seq<CrateView>)
    requires
        dump_fits(crates),
    ensures
        parse_dump(dump(crates)) == Ok::<Seq<CrateView>, DecodeError>(collapsed_all(crates)),
    decreases crates.len(),
{
    if crates.len() == 0 {
        assert(collapsed_all(crates) =~= Seq::<CrateView>::empty());
    } else {
        let head = crates[0];
        let tail = crates.skip(1);
        assert(dump_fits(tail)) by {
            assert forall|i: int| 0 <= i < tail.len() implies (#[trigger] tail[i]).fits()
                && record(tail[i]).len() < 0x1_0000_0000 by {
                assert(tail[i] == crates[i + 1]);
            }
        }
        lemma_take_frame_of_framed(record(head), dump(tail));
        lemma_parse_of_record(head);
        lemma_parse_of_dump(tail);
        assert(dump(crates).len() > 0);
        assert(seq![head.collapsed()] + collapsed_all(tail) =~= collapsed_all(crates));
    }
}

/// Writes the file of ranked packages.
pub fn encode_dump(crates: &Vec<Crate>) -> (bytes: Vec<u8>)
    ensures
        bytes@ == dump(crate_views(crates@)),
{
    let mut out: Vec<u8> = Vec::new();
    let ghost all = crate_views(crates@);
    let mut i: usize = 0;
    assert(all.skip(0) =~= all);
    while i < crates.len()
        invariant
            i <= crates.len(),
            all == crate_views(crates@),
            out@ + dump(all.skip(i as int)) == dump(all),
        decreases crates.len() - i,
    {
        let ghost before = out@;
        let rec = crates[i].to_bytes();
        put_frame(&mut out, rec.as_slice());
        proof {
            let tail = all.skip(i as int);
            assert(tail.skip(1) =~= all.skip(i + 1));
            assert(tail[0] == crates@[i as int]@);
            assert(out@ + dump(all.skip(i + 1)) =~= before + dump(tail));
        }
        i = i + 1;
    }
    assert(out@ + dump(all.skip(i as int)) =~= out@);
    out
}

/// Reads a file of framed records.
pub fn decode_dump(data: &[u8]) -> (r: Result<Vec<Crate>, DecodeError>)
    ensures
        match parse_dump(data@) {
            Ok(cs) => r is Ok && crate_views(r->Ok_0@) == cs,
            Err(e) => r == Err::<Vec<Crate>, DecodeError>(e),
        },
{
    let mut reader = Reader::new(data);
    let mut crates: Vec<Crate> = Vec::new();
    assert(crate_views(crates@) =~= Seq::<CrateView>::empty());
    loop
        invariant
            match parse_dump(reader.remaining()) {
                Ok(tail) => parse_dump(data@) == Ok::<Seq<CrateView>, DecodeError>(
                    crate_views(crates@) + tail,
                ),
                Err(e) => parse_dump(data@) == Err::<Seq<CrateView>, DecodeError>(e),
            },
        decreases reader.remaining().len(),
    {
        if reader.at_end() {
            assert(crate_views(crates@) + Seq::<CrateView>::empty() =~= crate_views(crates@));
            return Ok(crates);
        }
        let ghost done = crate_views(crates@);
        let ghost before = reader.remaining();
        let frame = match reader.read_frame() {
            Err(e) => {
                return Err(e);
            },
            Ok(frame) => frame,
        };
        let c = match Crate::from_bytes(frame) {
            Err(e) => {
                return Err(e);
            },
            Ok(c) => c,
        };
        crates.push(c);
        proof {
            assert(reader.remaining().len() < before.len());
            assert(crate_views(crates@) =~= done + seq![c@]);
            match parse_dump(reader.remaining()) {
                Ok(tail) => {
                    assert(done + (seq![c@] + tail) =~= crate_views(crates@) + tail);
                },
                Err(e) => {},
            }
        }
    }
}

/// A table from identifier to name: each entry is the identifier, then the
/// name as a text field, with nothing around or between the entries.
pub open spec fn table(entries: Seq<(u32, Seq<char>)>) -> Seq<u8>
    decreases entries.len(),
{
    if entries.len() == 0 {
        Seq::empty()
    } else {
        le32(entries[0].0) + text_field(entries[0].1) + table(entries.skip(1))
    }
}

/// The entries that a table holds: entries are read until the input ends.
pub open spec fn parse_table(s: Seq<u8>) -> Result<Seq<(u32, Seq<char>)>, DecodeError>
    decreases s.len(),
{
    if s.len() == 0 {
        Ok(Seq::empty())
    } else {
        match take_u32(s) {
            Err(e) => Err(e),
            Ok((id, s1)) => match take_text(s1) {
                Err(e) => Err(e),
                Ok((name, rest)) => match parse_table(rest) {
                    Err(e) => Err(e),
                    Ok(es) => Ok(seq![(id, name)] + es),
                },
            },
        }
    }
}

/// The mathematical contents of a sequence of entries.
pub open spec fn entry_views(entries: Seq<(u32, String)>) -> Seq<(u32, Seq<char>)> {
    entries.map_values(|e: (u32, String)| (e.0, e.1@))
}

/// Whether each name fits the prefix that announces it.
pub open spec fn table_fits(entries: Seq<(u32, Seq<char>)>) -> bool {
    forall|i: int|
        0 <= i < entries.len() ==> encode_utf8((#[trigger] entries[i]).1).len() < 0x1_0000_0000
}

/// Decoding the table of a sequence of entries gives the entries again, in
/// order.
pub proof fn lemma_parse_of_table(entries: Seq<(u32, Seq<char>)>)
    requires
        table_fits(entries),
    ensures
        parse_table(table(entries)) == Ok::<Seq<(u32, Seq<char>)>, DecodeError>(entries),
    decreases entries.len(),
{
    if entries.len() == 0 {
        assert(entries =~= Seq::<(u32, Seq<char>)>::empty());
    } else {
        let (id, name) = entries[0];
        let tail = entries.skip(1);
        assert(table_fits(tail)) by {
            assert forall|i: int| 0 <= i < tail.len() implies encode_utf8(
                (#[trigger] tail[i]).1,
            ).len() < 0x1_0000_0000 by {
                assert(tail[i] == entries[i + 1]);
            }
        }
        let bytes = encode_utf8(name);
        assert(table(entries) =~= le32(id) + (framed(bytes) + table(tail)));
        lemma_take_u32_of_le32(id, framed(bytes) + table(tail));
        lemma_take_frame_of_framed(bytes, table(tail));
        encode_utf8_valid_utf8(name);
        encode_utf8_decode_utf8(name);
        lemma_parse_of_table(tail);
        assert(table(entries).len() > 0);
        assert(seq![(id, name)] + tail =~= entries);
    }
}

/// Writes a table from identifier to name.
pub fn encode_table(entries: &Vec<(u32, String)>) -> (bytes: Vec<u8>)
    ensures
        bytes@ == table(entry_views(entries@)),
{
    let mut out: Vec<u8> = Vec::new();
    let ghost all = entry_views(entries@);
    let mut i: usize = 0;
    assert(all.skip(0) =~= all);
    while i < entries.len()
        invariant
            i <= entries.len(),
            all == entry_views(entries@),
            out@ + table(all.skip(i as int)) == table(all),
        decreases entries.len() - i,
    {
        let ghost before = out@;
        put_u32(&mut out, entries[i].0);
        put_text(&mut out, entries[i].1.as_str());
        proof {
            let tail = all.skip(i as int);
            assert(tail.skip(1) =~= all.skip(i + 1));
            assert(tail[0] == (entries@[i as int].0, entries@[i as int].1@));
            assert(out@ + table(all.skip(i + 1)) =~= before + table(tail));
        }
        i = i + 1;
    }
    assert(out@ + table(all.skip(i as int)) =~= out@);
    out
}

/// Reads a table from identifier to name.
pub fn decode_table(data: &[u8]) -> (r: Result<Vec<(u32, String)>, DecodeError>)
    ensures
        match parse_table(data@) {
            Ok(es) => r is Ok && entry_views(r->Ok_0@) == es,
            Err(e) => r == Err::<Vec<(u32, String)>, DecodeError>(e),
        },
{
    let mut reader = Reader::new(data);
    let mut entries: Vec<(u32, String)> = Vec::new();
    assert(entry_views(entries@) =~= Seq::<(u32, Seq<char>)>::empty());
    loop
        invariant
            match parse_table(reader.remaining()) {
                Ok(tail) => parse_table(data@) == Ok::<Seq<(u32, Seq<char>)>, DecodeError>(
                    entry_views(entries@) + tail,
                ),
                Err(e) => parse_table(data@) == Err::<Seq<(u32, Seq<char>)>, DecodeError>(e),
            },
        decreases reader.remaining().len(),
    {
        if reader.at_end() {
            assert(entry_views(entries@) + Seq::<(u32, Seq<char>)>::empty() =~= entry_views(
                entries@,
            ));
            return Ok(entries);
        }
        let ghost done = entry_views(entries@);
        let ghost before = reader.remaining();
        let id = match reader.read_u32() {
            Err(e) => {
                return Err(e);
            },
            Ok(id) => id,
        };
        let name = match reader.read_text() {
            Err(e) => {
                return Err(e);
            },
            Ok(name) => name,
        };
        let ghost entry = (id, name@);
        entries.push((id, name));
        proof {
            assert(reader.remaining().len() < before.len());
            assert(entry_views(entries@) =~= done + seq![entry]);
            match parse_table(reader.remaining()) {
                Ok(tail) => {
                    assert(done + (seq![entry] + tail) =~= entry_views(entries@) + tail);
                },
                Err(e) => {},
            }
        }
    }
}

} // verus!
