//! The font's full name, as the font loader decodes it: the first Unicode
//! name record with name id 4, in UTF-16 (big endian).

use vstd::prelude::*;

verus! {

/// The name records of the first face in `data`, as `ttf_parser` lists them
/// (name id, whether the record's encoding is Unicode, the record's bytes),
/// or `None` when `ttf_parser` cannot parse the face.
pub uninterp spec fn face_names(data: Seq<u8>) -> Option<Seq<(u16, bool, Seq<u8>)>>;

/// The plain view of a list of name records.
pub open spec fn names_view(names: Option<Vec<(u16, bool, Vec<u8>)>>) -> Option<Seq<(u16, bool, Seq<u8>)>> {
    match names {
        Some(v) => Some(v@.map_values(|r: (u16, bool, Vec<u8>)| (r.0, r.1, r.2@))),
        None => None,
    }
}

/// Lists the name records of the first face with `ttf_parser::Face::parse`
/// (face index 0) and `Face::names`, in order. Claimed of it: the list is a
/// function of the bytes, named `face_names`.
#[verifier::external_body]
fn read_face_names(data: &[u8]) -> (names: Option<Vec<(u16, bool, Vec<u8>)>>)
    ensures
        names_view(names) == face_names(data@),
{
    ttf_parser::Face::parse(data, 0).ok().map(
        |face| face.names().into_iter().map(|n| (n.name_id, n.is_unicode(), n.name.to_vec())).collect(),
    )
}

/// The UTF-16 code unit starting at byte `i` (big endian).
pub open spec fn unit_at(b: Seq<u8>, i: int) -> int {
    b[i] as int * 256 + b[i + 1] as int
}

/// `b` is well-formed big-endian UTF-16: whole code units, and every
/// surrogate a high one followed by a low one.
pub open spec fn utf16_ok(b: Seq<u8>) -> bool
    decreases b.len(),
{
    if b.len() == 0 {
        true
    } else if b.len() < 2 {
        false
    } else {
        let a = unit_at(b, 0);
        if a < 0xD800 || a > 0xDFFF {
            utf16_ok(b.skip(2))
        } else if a >= 0xDC00 || b.len() < 4 {
            false
        } else {
            let c = unit_at(b, 2);
            0xDC00 <= c <= 0xDFFF && utf16_ok(b.skip(4))
        }
    }
}

/// The bytes of the first Unicode record with name id 4 (the full name).
pub open spec fn full_name(names: Seq<(u16, bool, Seq<u8>)>) -> Option<Seq<u8>>
    decreases names.len(),
{
    if names.len() == 0 {
        None
    } else if names[0].0 == 4 && names[0].1 {
        Some(names[0].2)
    } else {
        full_name(names.drop_first())
    }
}

/// The font loader can decode the font's full name: either the face does not
/// parse, or it has no Unicode full name, or that name is well-formed UTF-16.
pub open spec fn full_name_decodes(data: Seq<u8>) -> bool {
    face_names(data) matches Some(names) ==> (full_name(names) matches Some(b) ==> utf16_ok(b))
}

/// Checks that `b` is well-formed big-endian UTF-16.
fn check_utf16(b: &[u8]) -> (ok: bool)
    ensures
        ok == utf16_ok(b@),
{
    let mut i: usize = 0;
    assert(b@.skip(0) =~= b@);
    while i < b.len()
        invariant
            i <= b@.len(),
            utf16_ok(b@) == utf16_ok(b@.skip(i as int)),
        decreases b@.len() - i,
    {
        let ghost rest = b@.skip(i as int);
        if b.len() - i < 2 {
            return false;
        }
        assert(unit_at(rest, 0) == unit_at(b@, i as int));
        let a: u32 = b[i] as u32 * 256 + b[i + 1] as u32;
        if a < 0xD800 || a > 0xDFFF {
            assert(rest.skip(2) =~= b@.skip(i + 2));
            i = i + 2;
        } else if a >= 0xDC00 || b.len() - i < 4 {
            return false;
        } else {
            assert(unit_at(rest, 2) == unit_at(b@, i + 2));
            let c: u32 = b[i + 2] as u32 * 256 + b[i + 3] as u32;
            if c < 0xDC00 || c > 0xDFFF {
                return false;
            }
            assert(rest.skip(4) =~= b@.skip(i + 4));
            i = i + 4;
        }
    }
    assert(b@.skip(i as int) =~= Seq::<u8>::empty());
    true
}

/// Checks that the font loader can decode the full name of the font in
/// `data`.
pub fn check_full_name(data: &[u8]) -> (ok: bool)
    ensures
        ok == full_name_decodes(data@),
{
    match read_face_names(data) {
        None => true,
        Some(names) => {
            let ghost view = face_names(data@)->0;
            let mut i: usize = 0;
            assert(view.skip(0) =~= view);
            while i < names.len()
                invariant
                    i <= names@.len(),
                    face_names(data@) == Some(view),
                    view.len() == names@.len(),
                    forall|k: int| 0 <= k < names@.len() ==> #[trigger] view[k] == (names@[k].0, names@[k].1, names@[k].2@),
                    full_name(view) == full_name(view.skip(i as int)),
                decreases names@.len() - i,
            {
                let ghost rest = view.skip(i as int);
                assert(rest[0] == view[i as int]);
                assert(rest.drop_first() =~= view.skip(i + 1));
                if names[i].0 == 4 && names[i].1 {
                    assert(view[i as int] == (names@[i as int].0, names@[i as int].1, names@[i as int].2@));
                    assert(full_name(rest) == Some(names@[i as int].2@));
                    return check_utf16(names[i].2.as_slice());
                }
                i = i + 1;
            }
            assert(view.skip(i as int) =~= Seq::<(u16, bool, Seq<u8>)>::empty());
            true
        },
    }
}

} // verus!
