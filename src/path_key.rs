//! A flat, separator-free cache key for a filesystem path: every component
//! but the root directory, each followed by `%`.

use vstd::prelude::*;

use crate::text::{chars_of, lacks, lemma_split_on_append_plain, split_on, string_of};

verus! {

/// The character written after each component of an encoded path.
pub const KEY_DELIMITER: char = '%';

/// One component of a path, as the platform's path parser splits it.
#[derive(Debug, Clone, PartialEq, Eq)]
pub enum PathSegment {
    /// A drive or share prefix (only on platforms that have them).
    Prefix(String),
    /// The root directory marker of an absolute path.
    RootDir,
    /// `.`
    CurDir,
    /// `..`
    ParentDir,
    /// An ordinary directory or file name.
    Normal(String),
}

/// The text that the key records for a component. The root directory has none.
pub open spec fn segment_text(seg: PathSegment) -> Seq<char> {
    match seg {
        PathSegment::Prefix(t) => t@,
        PathSegment::RootDir => Seq::empty(),
        PathSegment::CurDir => seq!['.'],
        PathSegment::ParentDir => seq!['.', '.'],
        PathSegment::Normal(t) => t@,
    }
}

/// What one component adds to the key.
pub open spec fn encoded_piece(seg: PathSegment) -> Seq<char> {
    if seg is RootDir {
        Seq::empty()
    } else {
        segment_text(seg).push(KEY_DELIMITER)
    }
}

/// The key of a component sequence: the pieces of its components, in order.
pub open spec fn encode_spec(segs: Seq<PathSegment>) -> Seq<char>
    decreases segs.len(),
{
    if segs.len() == 0 {
        Seq::empty()
    } else {
        encode_spec(segs.drop_last()) + encoded_piece(segs.last())
    }
}

/// The texts of the components that a key keeps, in order (all but the root).
pub open spec fn kept_texts(segs: Seq<PathSegment>) -> Seq<Seq<char>>
    decreases segs.len(),
{
    if segs.len() == 0 {
        Seq::empty()
    } else if segs.last() is RootDir {
        kept_texts(segs.drop_last())
    } else {
        kept_texts(segs.drop_last()).push(segment_text(segs.last()))
    }
}

/// Reading a key back: split it on the delimiter and drop the empty tail.
pub open spec fn decode_spec(key: Seq<char>) -> Seq<Seq<char>> {
    split_on(key, KEY_DELIMITER).drop_last()
}

/// The components that the platform's path parser finds in `path`.
pub uninterp spec fn components_of(path: Seq<char>) -> Seq<PathSegment>;

/// Relies on `std::path::Path::components`, each component converted one for
/// one. The components depend on the path text alone; repeated separators
/// are ignored, so a normal component is never empty and never holds the `/`
/// separator.
#[verifier::external_body]
fn path_segments(path: &str) -> (r: Vec<PathSegment>)
    ensures
        r@ == components_of(path@),
        forall|i: int|
            0 <= i < r@.len() && #[trigger] r@[i] is Normal ==> lacks(segment_text(r@[i]), '/'),
        forall|i: int|
            0 <= i < r@.len() && #[trigger] r@[i] is Normal ==> segment_text(r@[i]).len() > 0,
{
    std::path::Path::new(path).components().map(|c| match c {
        std::path::Component::Prefix(p) => PathSegment::Prefix(
            p.as_os_str().to_string_lossy().into_owned(),
        ),
        std::path::Component::RootDir => PathSegment::RootDir,
        std::path::Component::CurDir => PathSegment::CurDir,
        std::path::Component::ParentDir => PathSegment::ParentDir,
        std::path::Component::Normal(n) => PathSegment::Normal(n.to_string_lossy().into_owned()),
    }).collect()
}

/// The key of a component sequence.
pub fn encode_segments(segs: &Vec<PathSegment>) -> (r: String)
    ensures
        r@ == encode_spec(segs@),
{
    let mut out: Vec<char> = Vec::new();
    let mut i: usize = 0;
    while i < segs.len()
        invariant
            0 <= i <= segs.len(),
            out@ == encode_spec(segs@.take(i as int)),
        decreases segs.len() - i,
    {
        match &segs[i] {
            PathSegment::RootDir => {},
            PathSegment::CurDir => {
                out.push('.');
                out.push(KEY_DELIMITER);
            },
            PathSegment::ParentDir => {
                out.push('.');
                out.push('.');
                out.push(KEY_DELIMITER);
            },
            PathSegment::Prefix(t) => {
                let mut cs = chars_of(t.as_str());
                out.append(&mut cs);
                out.push(KEY_DELIMITER);
            },
            PathSegment::Normal(t) => {
                let mut cs = chars_of(t.as_str());
                out.append(&mut cs);
                out.push(KEY_DELIMITER);
            },
        }
        proof {
            assert(segs@.take(i + 1).drop_last() =~= segs@.take(i as int));
            assert(out@ =~= encode_spec(segs@.take(i + 1)));
        }
        i += 1;
    }
    proof {
        assert(segs@.take(segs.len() as int) =~= segs@);
    }
    string_of(&out)
}

/// The cache file name for the dictionary of the file at `path`: each of the
/// path's components but the root directory, each followed by `%`.
pub fn file_dict_name(path: &str) -> (r: String)
    ensures
        r@ == encode_spec(components_of(path@)),
        forall|i: int|
            0 <= i < components_of(path@).len() && #[trigger] components_of(path@)[i] is Normal
                ==> segment_text(components_of(path@)[i]).len() > 0,
        (forall|i: int|
            0 <= i < components_of(path@).len() ==> !(#[trigger] components_of(path@)[i] is Prefix))
            ==> lacks(r@, '/'),
{
    let segs = path_segments(path);
    let r = encode_segments(&segs);
    proof {
        if forall|i: int| 0 <= i < segs@.len() ==> !(#[trigger] segs@[i] is Prefix) {
            assert forall|i: int| 0 <= i < segs@.len() implies lacks(
                segment_text(#[trigger] segs@[i]),
                '/',
            ) by {}
            lemma_key_has_no_separator(segs@);
        }
    }
    r
}

/// A key is its first component's piece followed by the key of the rest.
pub proof fn lemma_encode_first(segs: Seq<PathSegment>)
    requires
        segs.len() > 0,
    ensures
        encode_spec(segs) == encoded_piece(segs[0]) + encode_spec(segs.drop_first()),
    decreases segs.len(),
{
    if segs.len() == 1 {
        assert(segs.drop_last() =~= Seq::<PathSegment>::empty());
        assert(segs.drop_first() =~= Seq::<PathSegment>::empty());
        assert(encode_spec(segs) =~= encoded_piece(segs[0]) + encode_spec(segs.drop_first()));
    } else {
        let init = segs.drop_last();
        lemma_encode_first(init);
        assert(init.drop_first() =~= segs.drop_first().drop_last());
        assert(segs.drop_first().last() == segs.last());
        assert(init[0] == segs[0]);
        assert(encode_spec(segs) =~= encoded_piece(segs[0]) + encode_spec(segs.drop_first()));
    }
}

/// Keys never hold the `/` separator, provided no component's own text does
/// (the root directory contributes no text at all).
pub proof fn lemma_key_has_no_separator(segs: Seq<PathSegment>)
    requires
        forall|i: int| 0 <= i < segs.len() ==> lacks(segment_text(#[trigger] segs[i]), '/'),
    ensures
        lacks(encode_spec(segs), '/'),
    decreases segs.len(),
{
    if segs.len() > 0 {
        let init = segs.drop_last();
        assert forall|i: int| 0 <= i < init.len() implies lacks(
            segment_text(#[trigger] init[i]),
            '/',
        ) by {
            assert(init[i] == segs[i]);
        }
        lemma_key_has_no_separator(init);
        assert(lacks(segment_text(segs[segs.len() - 1]), '/'));
        let e = encode_spec(init);
        let p = encoded_piece(segs.last());
        assert forall|j: int| 0 <= j < (e + p).len() implies (e + p)[j] != '/' by {
            if j >= e.len() {
                if !(segs.last() is RootDir) && j - e.len() < segment_text(segs.last()).len() {
                    assert(p[j - e.len()] == segment_text(segs.last())[j - e.len()]);
                }
            }
        }
    }
}

/// A path that starts at the root directory has the key of the same path
/// without it: the root leaves no trace.
pub proof fn lemma_root_dropped(segs: Seq<PathSegment>)
    requires
        segs.len() > 0,
        segs[0] is RootDir,
    ensures
        encode_spec(segs) == encode_spec(segs.drop_first()),
{
    lemma_encode_first(segs);
    assert(encode_spec(segs) =~= encode_spec(segs.drop_first()));
}

/// The key of a path that starts at the root directory begins with the first
/// character of the component after the root, when that component has text:
/// the key starts neither with the root nor with a bare `%`.
pub proof fn lemma_rooted_key_start(segs: Seq<PathSegment>)
    requires
        segs.len() > 1,
        segs[0] is RootDir,
        !(segs[1] is RootDir),
        segment_text(segs[1]).len() > 0,
    ensures
        encode_spec(segs).len() > 0,
        encode_spec(segs)[0] == segment_text(segs[1])[0],
{
    lemma_root_dropped(segs);
    lemma_encode_first(segs.drop_first());
    assert(segs.drop_first()[0] == segs[1]);
    let p = encoded_piece(segs[1]);
    assert(p[0] == segment_text(segs[1])[0]);
    assert((p + encode_spec(segs.drop_first().drop_first()))[0] == p[0]);
}

/// Splitting a key on the delimiter gives back the kept texts, then an empty
/// tail, as long as no text holds the delimiter.
proof fn lemma_split_key(segs: Seq<PathSegment>)
    requires
        forall|i: int| 0 <= i < segs.len() ==> lacks(segment_text(#[trigger] segs[i]), KEY_DELIMITER),
    ensures
        split_on(encode_spec(segs), KEY_DELIMITER) == kept_texts(segs).push(Seq::<char>::empty()),
    decreases segs.len(),
{
    if segs.len() == 0 {
        assert(split_on(Seq::<char>::empty(), KEY_DELIMITER) =~= seq![Seq::<char>::empty()]);
        assert(kept_texts(segs).push(Seq::<char>::empty()) =~= seq![Seq::<char>::empty()]);
    } else {
        let init = segs.drop_last();
        assert forall|i: int| 0 <= i < init.len() implies lacks(
            segment_text(#[trigger] init[i]),
            KEY_DELIMITER,
        ) by {
            assert(init[i] == segs[i]);
        }
        lemma_split_key(init);
        let last = segs.last();
        assert(segs[segs.len() - 1] == last);
        if !(last is RootDir) {
            let e = encode_spec(init);
            let t = segment_text(last);
            let k = kept_texts(init);
            lemma_split_on_append_plain(e, t, KEY_DELIMITER);
            assert(k.push(Seq::<char>::empty()).update(k.len() as int, Seq::<char>::empty() + t)
                =~= k.push(t));
            let whole = encode_spec(segs);
            assert(whole =~= (e + t).push(KEY_DELIMITER));
            assert(whole.drop_last() =~= e + t);
            assert(split_on(whole, KEY_DELIMITER) =~= k.push(t).push(Seq::<char>::empty()));
        } else {
            assert(encode_spec(segs) =~= encode_spec(init));
        }
    }
}

/// Decoding a key by splitting it on `%` recovers every component but the
/// root, in order, provided no component holds `%` itself.
pub proof fn lemma_key_round_trip(segs: Seq<PathSegment>)
    requires
        forall|i: int| 0 <= i < segs.len() ==> lacks(segment_text(#[trigger] segs[i]), KEY_DELIMITER),
    ensures
        decode_spec(encode_spec(segs)) == kept_texts(segs),
{
    lemma_split_key(segs);
    assert(kept_texts(segs).push(Seq::<char>::empty()).drop_last() =~= kept_texts(segs));
}

} // verus!
