//! The in-memory comment store: a vendor string and a multimap from
//! ASCII-lowercased tag names to ordered lists of values, with
//! picture-aware accessors layered on the generic operations.

use vstd::prelude::*;

use crate::error::Error;
use crate::header::{
    header_bytes, header_encodable, header_parse, pairs_view, parse_header, serialize_header,
    HeaderParse,
};
use crate::oggio::{
    get_end_info, ogg_assembled, ogg_packets, ogg_read_all, ogg_read_first, ogg_read_ok,
    ogg_read_second, ogg_write_stream, out_packets_model, packets_model, spec_end_info,
    OutPacket, PacketBoundary,
};
use crate::picture::{
    base64_of, decoded_picture, picture_bytes, picture_encodable, picture_encode_error, Picture,
    PictureModel, PictureType,
};
use crate::strutil::{is_lower, lemma_lower_is_lower, lower, str_eq};
use crate::utils::LowercaseString;

verus! {

/// The view of a list of owned values.
pub open spec fn strings_view(s: Seq<String>) -> Seq<Seq<char>> {
    s.map_values(|x: String| x@)
}

/// The view of the owned key-to-values entries.
pub open spec fn comments_view(s: Seq<(String, Vec<String>)>) -> Seq<(Seq<char>, Seq<Seq<char>>)> {
    s.map_values(|e: (String, Vec<String>)| (e.0@, strings_view(e.1@)))
}

/// True when some entry has key `k`.
pub open spec fn has_key(entries: Seq<(Seq<char>, Seq<Seq<char>>)>, k: Seq<char>) -> bool {
    exists|i: int| 0 <= i < entries.len() && (#[trigger] entries[i]).0 == k
}

/// The position of the entry with key `k`, where one exists and keys are
/// distinct.
pub open spec fn key_index(entries: Seq<(Seq<char>, Seq<Seq<char>>)>, k: Seq<char>) -> int {
    choose|i: int| 0 <= i < entries.len() && (#[trigger] entries[i]).0 == k
}

/// The values stored under key `k`; an absent key stores no values.
pub open spec fn values_of(entries: Seq<(Seq<char>, Seq<Seq<char>>)>, k: Seq<char>) -> Seq<
    Seq<char>,
> {
    if has_key(entries, k) {
        entries[key_index(entries, k)].1
    } else {
        Seq::empty()
    }
}

/// True when no two entries share a key.
pub open spec fn keys_distinct(entries: Seq<(Seq<char>, Seq<Seq<char>>)>) -> bool {
    forall|i: int, j: int|
        0 <= i < j < entries.len() ==> (#[trigger] entries[i]).0 != (#[trigger] entries[j]).0
}

/// The invariant of a tag's entries: keys are distinct and
/// ASCII-lowercase, and an absent key is the only way to store no values.
pub open spec fn tag_entries_wf(entries: Seq<(Seq<char>, Seq<Seq<char>>)>) -> bool {
    &&& keys_distinct(entries)
    &&& forall|i: int| 0 <= i < entries.len() ==> is_lower((#[trigger] entries[i]).0)
    &&& forall|i: int| 0 <= i < entries.len() ==> (#[trigger] entries[i]).1.len() > 0
}

/// With distinct keys, an entry holding `k` stands at `key_index`.
pub proof fn lemma_key_index(entries: Seq<(Seq<char>, Seq<Seq<char>>)>, k: Seq<char>, i: int)
    requires
        keys_distinct(entries),
        0 <= i < entries.len(),
        entries[i].0 == k,
    ensures
        has_key(entries, k),
        key_index(entries, k) == i,
{
    assert(has_key(entries, k));
    let j = key_index(entries, k);
    if j < i {
        assert(entries[j].0 != entries[i].0);
    } else if j > i {
        assert(entries[i].0 != entries[j].0);
    }
}

/// `entries` with `vs` appended to the values of `k`, the entry being
/// created at the end when `k` is absent.
pub open spec fn entries_add(
    entries: Seq<(Seq<char>, Seq<Seq<char>>)>,
    k: Seq<char>,
    vs: Seq<Seq<char>>,
) -> Seq<(Seq<char>, Seq<Seq<char>>)> {
    if has_key(entries, k) {
        entries.update(key_index(entries, k), (k, entries[key_index(entries, k)].1 + vs))
    } else {
        entries.push((k, vs))
    }
}

/// `entries` without the entry of `k`, if any.
pub open spec fn entries_remove(entries: Seq<(Seq<char>, Seq<Seq<char>>)>, k: Seq<char>) -> Seq<
    (Seq<char>, Seq<Seq<char>>),
> {
    if has_key(entries, k) {
        entries.remove(key_index(entries, k))
    } else {
        entries
    }
}

/// `entries` with the values of `k` replaced by `vs`; empty `vs` removes
/// the entry.
pub open spec fn entries_set(
    entries: Seq<(Seq<char>, Seq<Seq<char>>)>,
    k: Seq<char>,
    vs: Seq<Seq<char>>,
) -> Seq<(Seq<char>, Seq<Seq<char>>)> {
    if vs.len() == 0 {
        entries_remove(entries, k)
    } else if has_key(entries, k) {
        entries.update(key_index(entries, k), (k, vs))
    } else {
        entries.push((k, vs))
    }
}

/// Adding values under a lowercase key preserves the invariant.
pub proof fn lemma_entries_add_wf(
    entries: Seq<(Seq<char>, Seq<Seq<char>>)>,
    k: Seq<char>,
    vs: Seq<Seq<char>>,
)
    requires
        tag_entries_wf(entries),
        is_lower(k),
        vs.len() > 0,
    ensures
        tag_entries_wf(entries_add(entries, k, vs)),
        has_key(entries_add(entries, k, vs), k),
        values_of(entries_add(entries, k, vs), k) == values_of(entries, k) + vs,
        forall|k2: Seq<char>|
            k2 != k ==> #[trigger] values_of(entries_add(entries, k, vs), k2) == values_of(
                entries,
                k2,
            ) && (has_key(entries_add(entries, k, vs), k2) == has_key(entries, k2)),
{
    let r = entries_add(entries, k, vs);
    if has_key(entries, k) {
        let i = key_index(entries, k);
        lemma_key_index(entries, k, i);
        assert(r == entries.update(i, (k, entries[i].1 + vs)));
        assert(tag_entries_wf(r));
        lemma_key_index(r, k, i);
        assert(values_of(entries, k) + vs == entries[i].1 + vs);
        assert forall|k2: Seq<char>| k2 != k implies #[trigger] values_of(r, k2) == values_of(
            entries,
            k2,
        ) && (has_key(r, k2) == has_key(entries, k2)) by {
            if has_key(entries, k2) {
                let j = key_index(entries, k2);
                assert(r[j].0 == k2);
                lemma_key_index(r, k2, j);
            } else if has_key(r, k2) {
                let j = key_index(r, k2);
                assert(entries[j].0 == k2);
            }
        }
    } else {
        assert(r == entries.push((k, vs)));
        assert forall|i: int, j: int| 0 <= i < j < r.len() implies (#[trigger] r[i]).0 != (
        #[trigger] r[j]).0 by {
            if j == entries.len() as int {
                assert(r[i].0 == entries[i].0);
                if r[i].0 == k {
                    assert(has_key(entries, k));
                }
            }
        }
        assert(tag_entries_wf(r));
        lemma_key_index(r, k, entries.len() as int);
        assert(values_of(entries, k) + vs =~= vs);
        assert forall|k2: Seq<char>| k2 != k implies #[trigger] values_of(r, k2) == values_of(
            entries,
            k2,
        ) && (has_key(r, k2) == has_key(entries, k2)) by {
            if has_key(entries, k2) {
                let j = key_index(entries, k2);
                assert(r[j].0 == k2);
                lemma_key_index(r, k2, j);
            } else if has_key(r, k2) {
                let j = key_index(r, k2);
                assert(0 <= j < entries.len());
                assert(entries[j].0 == k2);
            }
        }
    }
}

/// Removing an entry preserves the invariant.
pub proof fn lemma_entries_remove_wf(entries: Seq<(Seq<char>, Seq<Seq<char>>)>, k: Seq<char>)
    requires
        tag_entries_wf(entries),
    ensures
        tag_entries_wf(entries_remove(entries, k)),
        !has_key(entries_remove(entries, k), k),
        forall|k2: Seq<char>|
            k2 != k ==> #[trigger] values_of(entries_remove(entries, k), k2) == values_of(
                entries,
                k2,
            ) && (has_key(entries_remove(entries, k), k2) == has_key(entries, k2)),
{
    let r = entries_remove(entries, k);
    if has_key(entries, k) {
        let i = key_index(entries, k);
        lemma_key_index(entries, k, i);
        assert(r == entries.remove(i));
        assert forall|j: int| 0 <= j < r.len() implies (#[trigger] r[j]) == (if j < i {
            entries[j]
        } else {
            entries[j + 1]
        }) by {}
        assert(tag_entries_wf(r));
        assert forall|j: int| 0 <= j < r.len() implies (#[trigger] r[j]).0 != k by {
            if j < i {
                assert(entries[j].0 != entries[i].0);
            } else {
                assert(entries[i].0 != entries[j + 1].0);
            }
        }
        assert(!has_key(r, k));
        assert forall|k2: Seq<char>| k2 != k implies #[trigger] values_of(r, k2) == values_of(
            entries,
            k2,
        ) && (has_key(r, k2) == has_key(entries, k2)) by {
            if has_key(entries, k2) {
                let j = key_index(entries, k2);
                if j < i {
                    assert(r[j].0 == k2);
                    lemma_key_index(r, k2, j);
                } else {
                    assert(j != i);
                    assert(r[j - 1].0 == k2);
                    lemma_key_index(r, k2, j - 1);
                }
            } else if has_key(r, k2) {
                let j = key_index(r, k2);
                if j < i {
                    assert(entries[j].0 == k2);
                } else {
                    assert(entries[j + 1].0 == k2);
                }
            }
        }
    }
}

/// The mathematical content of a [`Tag`].
pub struct TagModel {
    /// The vendor string.
    pub vendor: Seq<char>,
    /// The key-to-values entries, keys distinct, in insertion order.
    pub entries: Seq<(Seq<char>, Seq<Seq<char>>)>,
}

/// Stores Opus comments.
#[derive(Debug)]
pub struct Tag {
    vendor: String,
    comments: Vec<(String, Vec<String>)>,
}

impl View for Tag {
    type V = TagModel;

    closed spec fn view(&self) -> TagModel {
        TagModel { vendor: self.vendor@, entries: comments_view(self.comments@) }
    }
}

impl Default for Tag {
    /// An empty tag: empty vendor string and no comments.
    fn default() -> (r: Self)
        ensures
            r@.vendor == Seq::<char>::empty(),
            r@.entries == Seq::<(Seq<char>, Seq<Seq<char>>)>::empty(),
            r.wf(),
    {
        let r = Tag { vendor: String::new(), comments: Vec::new() };
        proof {
            assert(r@.entries =~= Seq::<(Seq<char>, Seq<Seq<char>>)>::empty());
        }
        r
    }
}

impl Tag {
    /// The entries respect the tag invariant.
    pub open spec fn wf(self) -> bool {
        tag_entries_wf(self@.entries)
    }

    /// Finds the entry with the given key, which is leftmost since keys
    /// are distinct.
    fn find_key(&self, key: &str) -> (r: Option<usize>)
        ensures
            match r {
                Some(i) => i < self@.entries.len() && self@.entries[i as int].0 == key@,
                None => !has_key(self@.entries, key@),
            },
    {
        let n = self.comments.len();
        let mut i: usize = 0;
        while i < n
            invariant
                n == self.comments@.len(),
                0 <= i <= n,
                forall|j: int| 0 <= j < i ==> comments_view(self.comments@)[j].0 != key@,
            decreases n - i,
        {
            if str_eq(self.comments[i].0.as_str(), key) {
                return Some(i);
            }
            i += 1;
        }
        None
    }

    /// Appends values under a lowercase key, creating the entry at the end
    /// when the key is absent. `values` must not be empty.
    fn push_values(&mut self, key: String, values: Vec<String>)
        requires
            old(self).wf(),
            is_lower(key@),
            values@.len() > 0,
        ensures
            final(self).wf(),
            final(self)@.vendor == old(self)@.vendor,
            final(self)@.entries == entries_add(old(self)@.entries, key@, strings_view(values@)),
    {
        let ghost vs = strings_view(values@);
        proof {
            lemma_entries_add_wf(old(self)@.entries, key@, vs);
        }
        let mut values = values;
        match self.find_key(key.as_str()) {
            Some(i) => {
                proof {
                    lemma_key_index(old(self)@.entries, key@, i as int);
                }
                let mut pair = self.comments.remove(i);
                let ghost old_vals = pair.1@;
                pair.1.append(&mut values);
                proof {
                    assert(strings_view(pair.1@) =~= strings_view(old_vals) + vs);
                }
                self.comments.insert(i, pair);
                proof {
                    assert(self.comments@ =~= old(self).comments@.update(
                        i as int,
                        self.comments@[i as int],
                    ));
                    assert(comments_view(self.comments@) =~= entries_add(
                        old(self)@.entries,
                        key@,
                        vs,
                    ));
                }
            },
            None => {
                self.comments.push((key, values));
                proof {
                    assert(comments_view(self.comments@) =~= entries_add(
                        old(self)@.entries,
                        key@,
                        vs,
                    ));
                }
            },
        }
    }

    /// Adds one entry.
    pub fn add_one(&mut self, tag: LowercaseString, value: String)
        requires
            old(self).wf(),
        ensures
            final(self).wf(),
            final(self)@.vendor == old(self)@.vendor,
            final(self)@.entries == entries_add(old(self)@.entries, tag@, seq![value@]),
    {
        let ghost v = value@;
        let mut values: Vec<String> = Vec::new();
        values.push(value);
        proof {
            use_type_invariant(&tag);
            tag.lemma_inv_lower();
            assert(strings_view(values@) =~= seq![v]);
        }
        self.push_values(tag.into_string(), values);
    }

    /// Adds multiple entries, appending to any the key already has. An
    /// empty list changes nothing: an absent key stands for no values.
    pub fn add_many(&mut self, tag: LowercaseString, values: Vec<String>)
        requires
            old(self).wf(),
        ensures
            final(self).wf(),
            final(self)@.vendor == old(self)@.vendor,
            final(self)@.entries == if values@.len() == 0 {
                old(self)@.entries
            } else {
                entries_add(old(self)@.entries, tag@, strings_view(values@))
            },
    {
        if values.len() == 0 {
            return ;
        }
        proof {
            use_type_invariant(&tag);
            tag.lemma_inv_lower();
        }
        self.push_values(tag.into_string(), values);
    }

    /// All values for a key, or `None` if no occurrence of the key exists.
    pub fn get(&self, tag: &LowercaseString) -> (r: Option<&Vec<String>>)
        requires
            self.wf(),
        ensures
            match r {
                Some(v) => has_key(self@.entries, tag@) && strings_view(v@) == values_of(
                    self@.entries,
                    tag@,
                ),
                None => !has_key(self@.entries, tag@),
            },
    {
        match self.find_key(tag.as_str()) {
            Some(i) => {
                proof {
                    lemma_key_index(self@.entries, tag@, i as int);
                }
                Some(&self.comments[i].1)
            },
            None => None,
        }
    }

    /// The first value for a key, or `None` if no occurrence of the key
    /// exists.
    pub fn get_one(&self, tag: &LowercaseString) -> (r: Option<&String>)
        requires
            self.wf(),
        ensures
            match r {
                Some(v) => has_key(self@.entries, tag@) && v@ == values_of(
                    self@.entries,
                    tag@,
                )[0],
                None => !has_key(self@.entries, tag@),
            },
    {
        match self.find_key(tag.as_str()) {
            Some(i) => {
                proof {
                    lemma_key_index(self@.entries, tag@, i as int);
                }
                Some(&self.comments[i].1[0])
            },
            None => None,
        }
    }

    /// Removes all values for a key, returning them if the key was
    /// present.
    pub fn remove_entries(&mut self, tag: &LowercaseString) -> (r: Option<Vec<String>>)
        requires
            old(self).wf(),
        ensures
            final(self).wf(),
            final(self)@.vendor == old(self)@.vendor,
            final(self)@.entries == entries_remove(old(self)@.entries, tag@),
            match r {
                Some(v) => has_key(old(self)@.entries, tag@) && strings_view(v@) == values_of(
                    old(self)@.entries,
                    tag@,
                ),
                None => !has_key(old(self)@.entries, tag@),
            },
    {
        proof {
            lemma_entries_remove_wf(old(self)@.entries, tag@);
        }
        match self.find_key(tag.as_str()) {
            Some(i) => {
                proof {
                    lemma_key_index(old(self)@.entries, tag@, i as int);
                }
                let pair = self.comments.remove(i);
                proof {
                    assert(comments_view(self.comments@) =~= comments_view(
                        old(self).comments@,
                    ).remove(i as int));
                }
                Some(pair.1)
            },
            None => None,
        }
    }

    /// Replaces all values for a key by the given ones, returning the old
    /// values if the key was present. An empty list removes the key: an
    /// absent key stands for no values.
    pub fn set_entries(&mut self, tag: LowercaseString, values: Vec<String>) -> (r: Option<
        Vec<String>,
    >)
        requires
            old(self).wf(),
        ensures
            final(self).wf(),
            final(self)@.vendor == old(self)@.vendor,
            final(self)@.entries == entries_set(old(self)@.entries, tag@, strings_view(values@)),
            match r {
                Some(v) => has_key(old(self)@.entries, tag@) && strings_view(v@) == values_of(
                    old(self)@.entries,
                    tag@,
                ),
                None => !has_key(old(self)@.entries, tag@),
            },
    {
        proof {
            use_type_invariant(&tag);
            tag.lemma_inv_lower();
        }
        if values.len() == 0 {
            return self.remove_entries(&tag);
        }
        match self.find_key(tag.as_str()) {
            Some(i) => {
                proof {
                    lemma_key_index(old(self)@.entries, tag@, i as int);
                }
                let pair = self.comments.remove(i);
                self.comments.insert(i, (tag.into_string(), values));
                proof {
                    assert(comments_view(self.comments@) =~= entries_set(
                        old(self)@.entries,
                        tag@,
                        strings_view(values@),
                    ));
                    lemma_set_wf(old(self)@.entries, tag@, strings_view(values@));
                }
                Some(pair.1)
            },
            None => {
                self.comments.push((tag.into_string(), values));
                proof {
                    assert(comments_view(self.comments@) =~= entries_set(
                        old(self)@.entries,
                        tag@,
                        strings_view(values@),
                    ));
                    lemma_set_wf(old(self)@.entries, tag@, strings_view(values@));
                }
                None
            },
        }
    }

    /// The vendor string.
    pub fn get_vendor(&self) -> (r: &str)
        ensures
            r@ == self@.vendor,
    {
        self.vendor.as_str()
    }

    /// Replaces the vendor string.
    pub fn set_vendor(&mut self, new_vendor: String)
        ensures
            final(self)@.vendor == new_vendor@,
            final(self)@.entries == old(self)@.entries,
            final(self).wf() == old(self).wf(),
    {
        self.vendor = new_vendor;
    }
}

/// The reserved comment key under which pictures are stored.
pub open spec fn picture_key_spec() -> Seq<char> {
    "metadata_block_picture"@
}

/// The position, at or after `from`, of the first stored value that
/// decodes to a picture of type `t`.
pub open spec fn first_pic_from(values: Seq<Seq<char>>, t: PictureType, from: int) -> Option<int>
    decreases values.len() - from,
{
    if from < 0 || from >= values.len() {
        None
    } else if decoded_picture(values[from]) matches Some(pm) && pm.picture_type == t {
        Some(from)
    } else {
        first_pic_from(values, t, from + 1)
    }
}

/// The first stored picture of type `t`, if any; values that fail to
/// decode are skipped, never reported.
pub open spec fn found_picture(
    entries: Seq<(Seq<char>, Seq<Seq<char>>)>,
    t: PictureType,
) -> Option<PictureModel> {
    let vs = values_of(entries, picture_key_spec());
    match first_pic_from(vs, t, 0) {
        Some(i) => decoded_picture(vs[i]),
        None => None,
    }
}

/// `entries` with the first stored picture of type `t` removed; the
/// reserved key leaves with its last value.
pub open spec fn entries_remove_picture(
    entries: Seq<(Seq<char>, Seq<Seq<char>>)>,
    t: PictureType,
) -> Seq<(Seq<char>, Seq<Seq<char>>)> {
    let k = picture_key_spec();
    let vs = values_of(entries, k);
    match first_pic_from(vs, t, 0) {
        None => entries,
        Some(i) => if vs.remove(i).len() == 0 {
            entries_remove(entries, k)
        } else {
            entries.update(key_index(entries, k), (k, vs.remove(i)))
        },
    }
}

/// A first match at or after `from` is unchanged by starting the search
/// earlier, as long as nothing before `from` matches.
proof fn lemma_first_pic_skip(values: Seq<Seq<char>>, t: PictureType, from: int)
    requires
        0 <= from <= values.len(),
        forall|k: int|
            0 <= k < from ==> !(decoded_picture(#[trigger] values[k]) matches Some(pm)
                && pm.picture_type == t),
    ensures
        first_pic_from(values, t, 0) == first_pic_from(values, t, from),
    decreases from,
{
    if from > 0 {
        lemma_first_pic_skip(values, t, from - 1);
    }
}

/// The views of a list of pictures.
pub open spec fn pictures_view(s: Seq<Picture>) -> Seq<PictureModel> {
    s.map_values(|p: Picture| p@)
}

/// The pictures stored by a list of comment values, in order; values that
/// fail to decode are skipped.
pub open spec fn decoded_pictures(values: Seq<Seq<char>>) -> Seq<PictureModel>
    decreases values.len(),
{
    if values.len() == 0 {
        Seq::empty()
    } else {
        let rest = decoded_pictures(values.drop_last());
        match decoded_picture(values.last()) {
            Some(pm) => rest.push(pm),
            None => rest,
        }
    }
}

/// The entries other than the reserved picture entry, in order.
pub open spec fn entries_except_pictures(entries: Seq<(Seq<char>, Seq<Seq<char>>)>) -> Seq<
    (Seq<char>, Seq<Seq<char>>),
>
    decreases entries.len(),
{
    if entries.len() == 0 {
        Seq::empty()
    } else {
        let rest = entries_except_pictures(entries.drop_last());
        if entries.last().0 == picture_key_spec() {
            rest
        } else {
            rest.push(entries.last())
        }
    }
}

/// The entries built by adding raw tag-and-value pairs in order, each tag
/// ASCII-lowercased first.
pub open spec fn entries_of_pairs(pairs: Seq<(Seq<char>, Seq<char>)>) -> Seq<
    (Seq<char>, Seq<Seq<char>>),
>
    decreases pairs.len(),
{
    if pairs.len() == 0 {
        Seq::empty()
    } else {
        entries_add(
            entries_of_pairs(pairs.drop_last()),
            lower(pairs.last().0),
            seq![pairs.last().1],
        )
    }
}

/// Entries built from pairs respect the tag invariant.
pub proof fn lemma_entries_of_pairs_wf(pairs: Seq<(Seq<char>, Seq<char>)>)
    ensures
        tag_entries_wf(entries_of_pairs(pairs)),
    decreases pairs.len(),
{
    if pairs.len() == 0 {
    } else {
        lemma_entries_of_pairs_wf(pairs.drop_last());
        lemma_lower_is_lower(pairs.last().0);
        lemma_entries_add_wf(
            entries_of_pairs(pairs.drop_last()),
            lower(pairs.last().0),
            seq![pairs.last().1],
        );
    }
}

/// The tag-and-value pairs of one entry: its key beside each value, in
/// order.
pub open spec fn pairs_of_entry(e: (Seq<char>, Seq<Seq<char>>)) -> Seq<(Seq<char>, Seq<char>)> {
    e.1.map_values(|v: Seq<char>| (e.0, v))
}

/// The tag-and-value pairs of all entries, entry by entry, values in
/// order.
pub open spec fn flatten_entries(entries: Seq<(Seq<char>, Seq<Seq<char>>)>) -> Seq<
    (Seq<char>, Seq<char>),
>
    decreases entries.len(),
{
    if entries.len() == 0 {
        Seq::empty()
    } else {
        flatten_entries(entries.drop_last()) + pairs_of_entry(entries.last())
    }
}

/// The keys of the given entries, in order.
pub open spec fn entry_keys(entries: Seq<(Seq<char>, Seq<Seq<char>>)>) -> Seq<Seq<char>> {
    entries.map_values(|e: (Seq<char>, Seq<Seq<char>>)| e.0)
}

/// The reserved comment key as a validated lowercase string.
fn picture_key() -> (r: LowercaseString)
    ensures
        r@ == picture_key_spec(),
{
    let r = LowercaseString::from_str("metadata_block_picture");
    proof {
        reveal_strlit("metadata_block_picture");
        assert(is_lower("metadata_block_picture"@));
        crate::strutil::lemma_lower_identity("metadata_block_picture"@);
    }
    r
}

/// Copies a list of values.
fn clone_strings(src: &Vec<String>) -> (r: Vec<String>)
    ensures
        r@ == src@,
{
    let mut r: Vec<String> = Vec::new();
    let n = src.len();
    let mut i: usize = 0;
    while i < n
        invariant
            n == src@.len(),
            0 <= i <= n,
            r@ == src@.subrange(0, i as int),
        decreases n - i,
    {
        r.push(src[i].clone());
        proof {
            assert(r@ =~= src@.subrange(0, i + 1));
        }
        i += 1;
    }
    proof {
        assert(src@.subrange(0, n as int) =~= src@);
    }
    r
}

impl Tag {
    /// Creates a tag from a vendor string and a list of raw comments,
    /// lowercasing each tag name.
    pub fn new(vendor: String, comments: Vec<(String, String)>) -> (r: Self)
        ensures
            r@.vendor == vendor@,
            r@.entries == entries_of_pairs(pairs_view(comments@)),
            r.wf(),
    {
        let ghost pv = pairs_view(comments@);
        let mut tag = Tag { vendor, comments: Vec::new() };
        proof {
            assert(comments_view(tag.comments@) =~= Seq::<(Seq<char>, Seq<Seq<char>>)>::empty());
            assert(pv.take(0) =~= Seq::<(Seq<char>, Seq<char>)>::empty());
        }
        let n = comments.len();
        let mut i: usize = 0;
        while i < n
            invariant
                n == comments@.len(),
                0 <= i <= n,
                pv == pairs_view(comments@),
                pv.len() == n,
                tag.wf(),
                tag@.vendor == vendor@,
                tag@.entries == entries_of_pairs(pv.take(i as int)),
            decreases n - i,
        {
            let key = LowercaseString::from_string(comments[i].0.clone());
            let value = comments[i].1.clone();
            tag.add_one(key, value);
            proof {
                assert(pv.take(i + 1).drop_last() =~= pv.take(i as int));
                assert(pv.take(i + 1).last() == pv[i as int]);
            }
            i += 1;
        }
        proof {
            assert(pv.take(n as int) =~= pv);
        }
        tag
    }

    /// Adds a picture, first removing any stored picture of the same
    /// type, then appending its base64 transport form under the reserved
    /// key.
    ///
    /// Fails exactly when encoding the picture fails; the removal stands
    /// either way.
    pub fn add_picture(&mut self, picture: &Picture) -> (r: Result<(), Error>)
        requires
            old(self).wf(),
        ensures
            final(self).wf(),
            final(self)@.vendor == old(self)@.vendor,
            match r {
                Ok(()) => {
                    &&& picture_encodable(picture@)
                    &&& decoded_picture(base64_of(picture_bytes(picture@))) == Some(picture@)
                    &&& final(self)@.entries == entries_add(
                        entries_remove_picture(old(self)@.entries, picture@.picture_type),
                        picture_key_spec(),
                        seq![base64_of(picture_bytes(picture@))],
                    )
                },
                Err(e) => {
                    &&& !picture_encodable(picture@)
                    &&& e == Error::PictureError(picture_encode_error(picture@))
                    &&& final(self)@.entries == entries_remove_picture(
                        old(self)@.entries,
                        picture@.picture_type,
                    )
                },
            },
    {
        let _removed = self.remove_picture_type_inner(picture.picture_type);
        let data = match picture.to_base64() {
            Ok(d) => d,
            Err(e) => {
                return Err(e);
            },
        };
        self.add_one(picture_key(), data);
        Ok(())
    }

    /// Removes the first stored picture of the given type, returning it.
    /// Values that fail to decode are skipped, never removed.
    fn remove_picture_type_inner(&mut self, picture_type: PictureType) -> (r: Option<Picture>)
        requires
            old(self).wf(),
        ensures
            final(self).wf(),
            final(self)@.vendor == old(self)@.vendor,
            final(self)@.entries == entries_remove_picture(old(self)@.entries, picture_type),
            match r {
                Some(p) => found_picture(old(self)@.entries, picture_type) == Some(p@),
                None => found_picture(old(self)@.entries, picture_type) is None,
            },
    {
        let key = picture_key();
        let ghost entries0 = self@.entries;
        let ghost vs = values_of(entries0, picture_key_spec());
        let idx = match self.find_key(key.as_str()) {
            Some(i) => i,
            None => {
                proof {
                    assert(vs =~= Seq::<Seq<char>>::empty());
                }
                return None;
            },
        };
        proof {
            lemma_key_index(entries0, picture_key_spec(), idx as int);
        }
        let m = self.comments[idx].1.len();
        let mut j: usize = 0;
        while j < m
            invariant
                old(self).wf(),
                *self == *old(self),
                entries0 == self@.entries,
                vs == values_of(entries0, picture_key_spec()),
                idx < self.comments@.len(),
                self@.entries[idx as int].0 == picture_key_spec(),
                key_index(entries0, picture_key_spec()) == idx,
                has_key(entries0, picture_key_spec()),
                m == vs.len(),
                0 <= j <= m,
                forall|k: int|
                    0 <= k < j ==> !(decoded_picture(#[trigger] vs[k]) matches Some(pm)
                        && pm.picture_type == picture_type),
            decreases m - j,
        {
            let decode_result = Picture::from_base64(self.comments[idx].1[j].as_str());
            proof {
                assert(strings_view(self.comments@[idx as int].1@)[j as int] == self.comments@[
                idx as int].1@[j as int]@);
            }
            match decode_result {
                Ok(pic) => {
                    if pic.picture_type == picture_type {
                        proof {
                            lemma_first_pic_skip(vs, picture_type, j as int);
                            assert(first_pic_from(vs, picture_type, 0) == Some(j as int));
                        }
                        let mut pair = self.comments.remove(idx);
                        pair.1.remove(j);
                        proof {
                            assert(strings_view(pair.1@) =~= vs.remove(j as int));
                        }
                        if pair.1.len() > 0 {
                            self.comments.insert(idx, pair);
                            proof {
                                lemma_entries_update_values_wf(
                                    entries0,
                                    picture_key_spec(),
                                    vs.remove(j as int),
                                );
                                assert(comments_view(self.comments@) =~= entries0.update(
                                    idx as int,
                                    (picture_key_spec(), vs.remove(j as int)),
                                ));
                            }
                        } else {
                            proof {
                                lemma_entries_remove_wf(entries0, picture_key_spec());
                                assert(comments_view(self.comments@) =~= entries0.remove(
                                    idx as int,
                                ));
                            }
                        }
                        return Some(pic);
                    }
                },
                Err(_) => {},
            }
            j += 1;
        }
        proof {
            lemma_first_pic_skip(vs, picture_type, m as int);
            assert(first_pic_from(vs, picture_type, 0) is None);
        }
        None
    }

    /// Removes the first stored picture of the given type, returning it.
    ///
    /// This function never fails; it returns a `Result` so that callers
    /// written against the wider error surface keep working.
    pub fn remove_picture_type(&mut self, picture_type: PictureType) -> (r: Result<
        Option<Picture>,
        Error,
    >)
        requires
            old(self).wf(),
        ensures
            final(self).wf(),
            final(self)@.vendor == old(self)@.vendor,
            final(self)@.entries == entries_remove_picture(old(self)@.entries, picture_type),
            r matches Ok(opt) && match opt {
                Some(p) => found_picture(old(self)@.entries, picture_type) == Some(p@),
                None => found_picture(old(self)@.entries, picture_type) is None,
            },
    {
        Ok(self.remove_picture_type_inner(picture_type))
    }

    /// The first stored picture of the given type, or `None` if there is
    /// none. Values that fail to decode are skipped.
    pub fn get_picture_type(&self, picture_type: PictureType) -> (r: Option<Picture>)
        requires
            self.wf(),
        ensures
            match r {
                Some(p) => found_picture(self@.entries, picture_type) == Some(p@),
                None => found_picture(self@.entries, picture_type) is None,
            },
    {
        let key = picture_key();
        let ghost vs = values_of(self@.entries, picture_key_spec());
        let idx = match self.find_key(key.as_str()) {
            Some(i) => i,
            None => {
                proof {
                    assert(vs =~= Seq::<Seq<char>>::empty());
                }
                return None;
            },
        };
        proof {
            lemma_key_index(self@.entries, picture_key_spec(), idx as int);
        }
        let m = self.comments[idx].1.len();
        let mut j: usize = 0;
        while j < m
            invariant
                self.wf(),
                vs == values_of(self@.entries, picture_key_spec()),
                idx < self.comments@.len(),
                self@.entries[idx as int].0 == picture_key_spec(),
                key_index(self@.entries, picture_key_spec()) == idx,
                has_key(self@.entries, picture_key_spec()),
                m == vs.len(),
                0 <= j <= m,
                forall|k: int|
                    0 <= k < j ==> !(decoded_picture(#[trigger] vs[k]) matches Some(pm)
                        && pm.picture_type == picture_type),
            decreases m - j,
        {
            proof {
                assert(strings_view(self.comments@[idx as int].1@)[j as int] == self.comments@[
                idx as int].1@[j as int]@);
            }
            match Picture::from_base64(self.comments[idx].1[j].as_str()) {
                Ok(pic) => {
                    if pic.picture_type == picture_type {
                        proof {
                            lemma_first_pic_skip(vs, picture_type, j as int);
                        }
                        return Some(pic);
                    }
                },
                Err(_) => {},
            }
            j += 1;
        }
        proof {
            lemma_first_pic_skip(vs, picture_type, m as int);
        }
        None
    }

    /// Whether any values are stored under the reserved picture key.
    pub fn has_pictures(&self) -> (r: bool)
        ensures
            r == has_key(self@.entries, picture_key_spec()),
    {
        let key = picture_key();
        match self.find_key(key.as_str()) {
            Some(_) => true,
            None => false,
        }
    }

    /// The stored pictures, in order, when the reserved key is present.
    /// Values that fail to decode are skipped.
    pub fn iter_pictures(&self) -> (r: Option<Vec<Picture>>)
        requires
            self.wf(),
        ensures
            match r {
                Some(v) => has_key(self@.entries, picture_key_spec()) && pictures_view(v@)
                    == decoded_pictures(values_of(self@.entries, picture_key_spec())),
                None => !has_key(self@.entries, picture_key_spec()),
            },
    {
        let key = picture_key();
        let ghost vs = values_of(self@.entries, picture_key_spec());
        let idx = match self.find_key(key.as_str()) {
            Some(i) => i,
            None => {
                return None;
            },
        };
        proof {
            lemma_key_index(self@.entries, picture_key_spec(), idx as int);
        }
        let m = self.comments[idx].1.len();
        let mut out: Vec<Picture> = Vec::new();
        let mut j: usize = 0;
        proof {
            assert(pictures_view(out@) =~= Seq::<PictureModel>::empty());
            assert(vs.take(0) =~= Seq::<Seq<char>>::empty());
        }
        while j < m
            invariant
                self.wf(),
                vs == values_of(self@.entries, picture_key_spec()),
                idx < self.comments@.len(),
                self@.entries[idx as int].0 == picture_key_spec(),
                key_index(self@.entries, picture_key_spec()) == idx,
                has_key(self@.entries, picture_key_spec()),
                m == vs.len(),
                0 <= j <= m,
                pictures_view(out@) == decoded_pictures(vs.take(j as int)),
            decreases m - j,
        {
            proof {
                assert(strings_view(self.comments@[idx as int].1@)[j as int] == self.comments@[
                idx as int].1@[j as int]@);
                assert(vs.take(j + 1).drop_last() =~= vs.take(j as int));
            }
            match Picture::from_base64(self.comments[idx].1[j].as_str()) {
                Ok(pic) => {
                    out.push(pic);
                    proof {
                        assert(pictures_view(out@) =~= decoded_pictures(vs.take(j + 1)));
                    }
                },
                Err(_) => {
                    proof {
                        assert(pictures_view(out@) =~= decoded_pictures(vs.take(j + 1)));
                    }
                },
            }
            j += 1;
        }
        proof {
            assert(vs.take(m as int) =~= vs);
        }
        Some(out)
    }

    /// All stored pictures, in order; with no reserved key there are none.
    /// Values that fail to decode are skipped.
    pub fn pictures(&self) -> (r: Vec<Picture>)
        requires
            self.wf(),
        ensures
            pictures_view(r@) == decoded_pictures(values_of(self@.entries, picture_key_spec())),
    {
        match self.iter_pictures() {
            Some(v) => v,
            None => {
                proof {
                    assert(values_of(self@.entries, picture_key_spec()) =~= Seq::<
                        Seq<char>,
                    >::empty());
                    assert(pictures_view(Seq::<Picture>::empty()) =~= Seq::<PictureModel>::empty());
                }
                Vec::new()
            },
        }
    }

    /// The comments other than the reserved picture entry, in order, each
    /// key beside its values.
    pub fn iter_comments(&self) -> (r: Vec<(String, Vec<String>)>)
        ensures
            comments_view(r@) == entries_except_pictures(self@.entries),
    {
        let key = picture_key();
        let ghost entries = self@.entries;
        let mut out: Vec<(String, Vec<String>)> = Vec::new();
        let n = self.comments.len();
        let mut i: usize = 0;
        proof {
            assert(comments_view(out@) =~= Seq::<(Seq<char>, Seq<Seq<char>>)>::empty());
            assert(entries.take(0) =~= Seq::<(Seq<char>, Seq<Seq<char>>)>::empty());
        }
        while i < n
            invariant
                n == self.comments@.len(),
                entries == self@.entries,
                entries.len() == n,
                key@ == picture_key_spec(),
                0 <= i <= n,
                comments_view(out@) == entries_except_pictures(entries.take(i as int)),
            decreases n - i,
        {
            proof {
                assert(entries.take(i + 1).drop_last() =~= entries.take(i as int));
            }
            if !str_eq(self.comments[i].0.as_str(), key.as_str()) {
                let k = self.comments[i].0.clone();
                let v = clone_strings(&self.comments[i].1);
                out.push((k, v));
                proof {
                    assert(comments_view(out@) =~= entries_except_pictures(entries.take(i + 1)));
                }
            } else {
                proof {
                    assert(comments_view(out@) =~= entries_except_pictures(entries.take(i + 1)));
                }
            }
            i += 1;
        }
        proof {
            assert(entries.take(n as int) =~= entries);
        }
        out
    }

    /// The comment keys other than the reserved picture key, in order.
    pub fn keys(&self) -> (r: Vec<String>)
        ensures
            strings_view(r@) == entry_keys(entries_except_pictures(self@.entries)),
    {
        let pairs = self.iter_comments();
        let ghost filtered = entries_except_pictures(self@.entries);
        let mut out: Vec<String> = Vec::new();
        let n = pairs.len();
        let mut i: usize = 0;
        proof {
            assert(strings_view(out@) =~= entry_keys(filtered.take(0)));
        }
        while i < n
            invariant
                n == pairs@.len(),
                comments_view(pairs@) == filtered,
                filtered.len() == n,
                0 <= i <= n,
                strings_view(out@) == entry_keys(filtered.take(i as int)),
            decreases n - i,
        {
            let ghost prev = out@;
            out.push(pairs[i].0.clone());
            proof {
                assert(comments_view(pairs@)[i as int] == (
                    pairs@[i as int].0@,
                    strings_view(pairs@[i as int].1@),
                ));
                assert(filtered[i as int].0 == pairs@[i as int].0@);
                assert(strings_view(out@) =~= strings_view(prev).push(pairs@[i as int].0@));
                assert(entry_keys(filtered.take(i + 1)) =~= entry_keys(filtered.take(i as int)).push(
                    filtered[i as int].0,
                ));
            }
            i += 1;
        }
        proof {
            assert(filtered.take(n as int) =~= filtered);
        }
        out
    }
}

/// Entry keys without `=` flatten to pair tags without `=`.
proof fn lemma_flatten_no_eq(entries: Seq<(Seq<char>, Seq<Seq<char>>)>)
    requires
        forall|i: int, k: int|
            0 <= i < entries.len() && 0 <= k < entries[i].0.len() ==> (#[trigger] entries[i].0[k])
                != '=',
    ensures
        forall|p: int, k: int|
            0 <= p < flatten_entries(entries).len() && 0 <= k < flatten_entries(entries)[p].0.len()
                ==> (#[trigger] flatten_entries(entries)[p].0[k]) != '=',
    decreases entries.len(),
{
    if entries.len() > 0 {
        let pre = entries.drop_last();
        assert(forall|i: int| 0 <= i < pre.len() ==> #[trigger] pre[i] == entries[i]);
        lemma_flatten_no_eq(pre);
        let e = entries.last();
        let fl = flatten_entries(entries);
        let fp = flatten_entries(pre);
        assert forall|p: int, k: int|
            0 <= p < fl.len() && 0 <= k < fl[p].0.len() implies (#[trigger] fl[p].0[k]) != '=' by {
            if p < fp.len() {
                assert(fl[p] == fp[p]);
            } else {
                assert(fl[p] == pairs_of_entry(e)[p - fp.len()]);
                assert(pairs_of_entry(e)[p - fp.len()].0 == e.0);
                assert(e == entries[entries.len() - 1]);
            }
        }
    }
}

/// Folding the pairs of one fresh key onto rebuilt entries appends one
/// entry with that key and the values in order.
proof fn lemma_fold_values(
    pairs: Seq<(Seq<char>, Seq<char>)>,
    k: Seq<char>,
    vs: Seq<Seq<char>>,
    j: int,
)
    requires
        1 <= j <= vs.len(),
        is_lower(k),
        tag_entries_wf(entries_of_pairs(pairs)),
        !has_key(entries_of_pairs(pairs), k),
    ensures
        entries_of_pairs(pairs + pairs_of_entry((k, vs)).take(j)) == entries_of_pairs(pairs).push(
            (k, vs.take(j)),
        ),
    decreases j,
{
    let base = entries_of_pairs(pairs);
    let povs = pairs_of_entry((k, vs));
    crate::strutil::lemma_lower_identity(k);
    if j == 1 {
        let q = pairs + povs.take(1);
        assert(q.drop_last() =~= pairs);
        assert(q.last() == (k, vs[0]));
        assert(entries_of_pairs(q) == entries_add(base, lower(k), seq![vs[0]]));
        assert(entries_add(base, k, seq![vs[0]]) == base.push((k, seq![vs[0]])));
        assert(vs.take(1) =~= seq![vs[0]]);
    } else {
        lemma_fold_values(pairs, k, vs, j - 1);
        let q = pairs + povs.take(j);
        assert(q.drop_last() =~= pairs + povs.take(j - 1));
        assert(q.last() == (k, vs[j - 1]));
        assert(entries_of_pairs(q) == entries_add(
            base.push((k, vs.take(j - 1))),
            lower(k),
            seq![vs[j - 1]],
        ));
        let mid = base.push((k, vs.take(j - 1)));
        assert(tag_entries_wf(mid) && has_key(mid, k) && values_of(mid, k) == vs.take(j - 1)) by {
            lemma_entries_add_wf(base, k, vs.take(j - 1));
            assert(entries_add(base, k, vs.take(j - 1)) == mid);
            assert(values_of(base, k) + vs.take(j - 1) =~= vs.take(j - 1));
        }
        lemma_key_index(mid, k, base.len() as int);
        assert(entries_add(mid, k, seq![vs[j - 1]]) == mid.update(
            base.len() as int,
            (k, vs.take(j - 1) + seq![vs[j - 1]]),
        ));
        assert(vs.take(j - 1) + seq![vs[j - 1]] =~= vs.take(j));
        assert(mid.update(base.len() as int, (k, vs.take(j))) =~= base.push((k, vs.take(j))));
    }
}

/// Rebuilding a well-formed tag's entries from its own flattened pairs
/// yields the entries back unchanged.
pub proof fn lemma_rebuild_entries(entries: Seq<(Seq<char>, Seq<Seq<char>>)>)
    requires
        tag_entries_wf(entries),
    ensures
        entries_of_pairs(flatten_entries(entries)) == entries,
    decreases entries.len(),
{
    if entries.len() == 0 {
        assert(flatten_entries(entries) =~= Seq::<(Seq<char>, Seq<char>)>::empty());
        assert(entries_of_pairs(flatten_entries(entries)) =~= entries);
    } else {
        let pre = entries.drop_last();
        let e = entries.last();
        assert(forall|i: int| 0 <= i < pre.len() ==> #[trigger] pre[i] == entries[i]);
        assert(tag_entries_wf(pre));
        lemma_rebuild_entries(pre);
        assert(!has_key(pre, e.0)) by {
            if has_key(pre, e.0) {
                let i = key_index(pre, e.0);
                assert(entries[i].0 == entries[entries.len() - 1].0);
            }
        }
        assert(e.1.len() > 0) by {
            assert(entries[entries.len() - 1].1.len() > 0);
        }
        assert(is_lower(e.0)) by {
            assert(is_lower(entries[entries.len() - 1].0));
        }
        lemma_fold_values(flatten_entries(pre), e.0, e.1, e.1.len() as int);
        assert(pairs_of_entry(e).take(e.1.len() as int) =~= pairs_of_entry(e));
        assert(e.1.take(e.1.len() as int) =~= e.1);
        assert(entries_of_pairs(flatten_entries(entries)) == pre.push((e.0, e.1)));
        assert(pre.push((e.0, e.1)) =~= entries);
    }
}

/// Round trip of a whole tag through the comment-header payload: writing
/// a well-formed tag whose keys hold no `=` and whose fields are within
/// the 32-bit budgets, then parsing the payload and rebuilding a tag from
/// the parsed pairs, yields the same vendor string and the same entries:
/// every key keeps its values in order.
pub proof fn lemma_tag_header_roundtrip(
    vendor: Seq<char>,
    entries: Seq<(Seq<char>, Seq<Seq<char>>)>,
)
    requires
        tag_entries_wf(entries),
        forall|i: int, k: int|
            0 <= i < entries.len() && 0 <= k < entries[i].0.len() ==> (#[trigger] entries[i].0[k])
                != '=',
        header_encodable(vendor, flatten_entries(entries)),
    ensures
        header_parse(header_bytes(vendor, flatten_entries(entries))) == HeaderParse::Parsed(
            vendor,
            flatten_entries(entries),
        ),
        entries_of_pairs(flatten_entries(entries)) == entries,
{
    lemma_flatten_no_eq(entries);
    crate::header::lemma_header_roundtrip(vendor, flatten_entries(entries));
    lemma_rebuild_entries(entries);
}

/// The number of pictures of type `t` in a list of decoded pictures.
pub open spec fn models_of_type_count(pics: Seq<PictureModel>, t: PictureType) -> int
    decreases pics.len(),
{
    if pics.len() == 0 {
        0
    } else {
        models_of_type_count(pics.drop_last(), t) + (
        if pics.last().picture_type == t {
            1int
        } else {
            0int
        })
    }
}

/// The pictures that decode out of stored values hold as many entries of a
/// type as the values do.
pub proof fn lemma_decoded_pictures_count(values: Seq<Seq<char>>, t: PictureType)
    ensures
        models_of_type_count(decoded_pictures(values), t) == picture_type_count(values, t),
    decreases values.len(),
{
    if values.len() > 0 {
        lemma_decoded_pictures_count(values.drop_last(), t);
        let rest = decoded_pictures(values.drop_last());
        match decoded_picture(values.last()) {
            Some(pm) => {
                assert(rest.push(pm).drop_last() =~= rest);
                assert(rest.push(pm).last() == pm);
            },
            None => {},
        }
    }
}

/// The eight marker bytes `OpusHead` that the first packet of an Opus
/// stream must begin with.
pub open spec fn opus_head_magic() -> Seq<u8> {
    seq![0x4fu8, 0x70u8, 0x75u8, 0x73u8, 0x48u8, 0x65u8, 0x61u8, 0x64u8]
}

/// True when packet data begins with the `OpusHead` marker.
pub open spec fn opus_head_ok(d: Seq<u8>) -> bool {
    d.len() >= 8 && d.subrange(0, 8) == opus_head_magic()
}

/// Checks the `OpusHead` marker.
fn is_opus_head(data: &Vec<u8>) -> (r: bool)
    ensures
        r == opus_head_ok(data@),
{
    if data.len() < 8 {
        return false;
    }
    let ok = data[0] == 0x4f && data[1] == 0x70 && data[2] == 0x75 && data[3] == 0x73 && data[4]
        == 0x48 && data[5] == 0x65 && data[6] == 0x61 && data[7] == 0x64;
    proof {
        let sub = data@.subrange(0, 8);
        assert(sub[0] == data@[0] && sub[1] == data@[1] && sub[2] == data@[2] && sub[3]
            == data@[3] && sub[4] == data@[4] && sub[5] == data@[5] && sub[6] == data@[6] && sub[7]
            == data@[7]);
        if ok {
            assert(sub =~= opus_head_magic());
        }
    }
    ok
}

/// The model of a packet copied verbatim into the rewritten stream.
pub open spec fn copied_packet(p: (Seq<u8>, u32, u64, bool, bool)) -> (Seq<u8>, u32, u64, int) {
    (p.0, p.1, p.2, spec_end_info(p))
}

/// The packets of the rewritten stream: the first packet verbatim, the
/// comment-header payload as the second packet ending its page, and every
/// later packet verbatim with its own boundary.
pub open spec fn rewritten_models(
    ps: Seq<(Seq<u8>, u32, u64, bool, bool)>,
    payload: Seq<u8>,
) -> Seq<(Seq<u8>, u32, u64, int)>
    recommends
        ps.len() >= 2,
{
    seq![copied_packet(ps[0]), (payload, ps[1].1, ps[1].2, 1int)] + ps.subrange(
        2,
        ps.len() as int,
    ).map_values(|p: (Seq<u8>, u32, u64, bool, bool)| copied_packet(p))
}

impl Tag {
    /// Serializes the tag into a comment-header payload: the marker, the
    /// vendor string, and each `tag=value` line, entry by entry, values in
    /// order.
    ///
    /// Fails exactly when the vendor string, the number of lines, or some
    /// line is over the 32-bit budget.
    pub fn to_packet_data(&self) -> (r: Result<Vec<u8>, Error>)
        ensures
            match r {
                Ok(b) => header_encodable(self@.vendor, flatten_entries(self@.entries)) && b@
                    == header_bytes(self@.vendor, flatten_entries(self@.entries)),
                Err(e) => !header_encodable(self@.vendor, flatten_entries(self@.entries)) && e
                    == Error::TooBigError,
            },
    {
        let ghost entries = self@.entries;
        let mut pairs: Vec<(String, String)> = Vec::new();
        let n = self.comments.len();
        let mut i: usize = 0;
        proof {
            assert(entries.take(0) =~= Seq::<(Seq<char>, Seq<Seq<char>>)>::empty());
            assert(pairs_view(pairs@) =~= flatten_entries(entries.take(0)));
        }
        while i < n
            invariant
                n == self.comments@.len(),
                entries == self@.entries,
                entries.len() == n,
                0 <= i <= n,
                pairs_view(pairs@) == flatten_entries(entries.take(i as int)),
            decreases n - i,
        {
            proof {
                assert(comments_view(self.comments@)[i as int] == (
                    self.comments@[i as int].0@,
                    strings_view(self.comments@[i as int].1@),
                ));
            }
            let m = self.comments[i].1.len();
            let mut j: usize = 0;
            proof {
                assert(pairs_of_entry(entries[i as int]).take(0) =~= Seq::<
                    (Seq<char>, Seq<char>),
                >::empty());
                assert(pairs_view(pairs@) =~= flatten_entries(entries.take(i as int))
                    + pairs_of_entry(entries[i as int]).take(0));
            }
            while j < m
                invariant
                    n == self.comments@.len(),
                    entries == self@.entries,
                    entries.len() == n,
                    0 <= i < n,
                    m == entries[i as int].1.len(),
                    m == self.comments@[i as int].1@.len(),
                    entries[i as int] == (
                        self.comments@[i as int].0@,
                        strings_view(self.comments@[i as int].1@),
                    ),
                    0 <= j <= m,
                    pairs_view(pairs@) == flatten_entries(entries.take(i as int)) + pairs_of_entry(
                        entries[i as int],
                    ).take(j as int),
                decreases m - j,
            {
                let ghost prev = pairs@;
                pairs.push((self.comments[i].0.clone(), self.comments[i].1[j].clone()));
                proof {
                    let e = entries[i as int];
                    assert(pairs_view(pairs@) =~= pairs_view(prev).push((e.0, e.1[j as int])));
                    assert(pairs_of_entry(e)[j as int] == (e.0, e.1[j as int]));
                    assert(pairs_of_entry(e).take(j + 1) =~= pairs_of_entry(e).take(
                        j as int,
                    ).push((e.0, e.1[j as int])));
                    assert(flatten_entries(entries.take(i as int)) + pairs_of_entry(e).take(j + 1)
                        =~= (flatten_entries(entries.take(i as int)) + pairs_of_entry(e).take(
                        j as int,
                    )).push((e.0, e.1[j as int])));
                }
                j += 1;
            }
            proof {
                let e = entries[i as int];
                assert(pairs_of_entry(e).take(m as int) =~= pairs_of_entry(e));
                assert(entries.take(i + 1).drop_last() =~= entries.take(i as int));
                assert(entries.take(i + 1).last() == e);
                assert(flatten_entries(entries.take(i + 1)) == flatten_entries(entries.take(
                    i as int,
                )) + pairs_of_entry(e));
            }
            i += 1;
        }
        proof {
            assert(entries.take(n as int) =~= entries);
        }
        serialize_header(self.vendor.as_str(), &pairs)
    }

    /// Reads a tag from an Ogg/Opus stream held in memory.
    ///
    /// The first packet must begin with the `OpusHead` marker; the second
    /// packet is parsed as the comment header. Fails when the stream
    /// cannot be read, ends before its second packet, is not Opus, or
    /// carries a malformed comment header.
    pub fn read_from_bytes(data: &[u8]) -> (r: Result<Tag, Error>)
        ensures
            ({
                let ps = ogg_packets(data@);
                match r {
                    Ok(tag) => {
                        &&& ps.len() >= 2
                        &&& opus_head_ok(ps[0].0)
                        &&& header_parse(ps[1].0) matches HeaderParse::Parsed(v, prs)
                            && tag@.vendor == v && tag@.entries == entries_of_pairs(prs)
                            && tag.wf()
                    },
                    Err(e) => {
                        if ps.len() == 0 {
                            e == if ogg_read_ok(data@) {
                                Error::MissingPacket
                            } else {
                                Error::ReadError
                            }
                        } else if !opus_head_ok(ps[0].0) {
                            e == Error::NotOpus
                        } else if ps.len() == 1 {
                            e == if ogg_read_ok(data@) {
                                Error::MissingPacket
                            } else {
                                Error::ReadError
                            }
                        } else {
                            match header_parse(ps[1].0) {
                                HeaderParse::Parsed(_, _) => false,
                                HeaderParse::TooShort => e == Error::DataError,
                                HeaderParse::BadUtf8(bs) => e matches Error::UTFError(v) && v@
                                    == bs,
                                HeaderParse::NoSeparator(line) => e matches Error::MalformedComment(
                                    s,
                                ) && s@ == line,
                            }
                        }
                    },
                }
            }),
    {
        let p1 = match ogg_read_first(data) {
            Err(e) => {
                return Err(e);
            },
            Ok(None) => {
                return Err(Error::MissingPacket);
            },
            Ok(Some(p)) => p,
        };
        if !is_opus_head(&p1.data) {
            return Err(Error::NotOpus);
        }
        let p2 = match ogg_read_second(data) {
            Err(e) => {
                return Err(e);
            },
            Ok(None) => {
                return Err(Error::MissingPacket);
            },
            Ok(Some(p)) => p,
        };
        let parsed = match parse_header(p2.data.as_slice()) {
            Ok(vp) => vp,
            Err(e) => {
                return Err(e);
            },
        };
        Ok(Tag::new(parsed.0, parsed.1))
    }

    /// Rewrites the comment header of an Ogg/Opus stream held in memory,
    /// returning the new stream: the first packet and every packet after
    /// the second are copied verbatim with their own boundaries, and the
    /// second packet is replaced by this tag's comment header, ending its
    /// page.
    ///
    /// Fails when the stream cannot be read, ends before its second
    /// packet, or when the tag is over a 32-bit length budget, in which
    /// case nothing has been assembled.
    pub fn write_to_bytes(&self, original: &[u8]) -> (r: Result<Vec<u8>, Error>)
        ensures
            ({
                let ps = ogg_packets(original@);
                let pairs = flatten_entries(self@.entries);
                match r {
                    Ok(bytes) => {
                        &&& ps.len() >= 2
                        &&& ogg_read_ok(original@)
                        &&& header_encodable(self@.vendor, pairs)
                        &&& ogg_assembled(
                            rewritten_models(ps, header_bytes(self@.vendor, pairs)),
                        ) == Some(bytes@)
                    },
                    Err(e) => {
                        if ps.len() < 2 {
                            e == if ogg_read_ok(original@) {
                                Error::MissingPacket
                            } else {
                                Error::ReadError
                            }
                        } else if !header_encodable(self@.vendor, pairs) {
                            e == Error::TooBigError
                        } else if !ogg_read_ok(original@) {
                            e == Error::ReadError
                        } else {
                            e == Error::DataError && ogg_assembled(
                                rewritten_models(ps, header_bytes(self@.vendor, pairs)),
                            ) is None
                        }
                    },
                }
            }),
    {
        let ghost ps = ogg_packets(original@);
        match ogg_read_first(original) {
            Err(e) => {
                return Err(e);
            },
            Ok(None) => {
                return Err(Error::MissingPacket);
            },
            Ok(Some(_)) => {},
        }
        match ogg_read_second(original) {
            Err(e) => {
                return Err(e);
            },
            Ok(None) => {
                return Err(Error::MissingPacket);
            },
            Ok(Some(_)) => {},
        }
        let payload = match self.to_packet_data() {
            Ok(p) => p,
            Err(e) => {
                return Err(e);
            },
        };
        let ghost payload_bytes = payload@;
        let mut all = match ogg_read_all(original) {
            Err(e) => {
                return Err(e);
            },
            Ok(v) => v,
        };
        proof {
            assert(packets_model(all@).len() == all@.len());
            assert(all@.len() == ps.len());
        }
        let ghost total = ps.len() as int;
        let ghost rewritten = rewritten_models(ps, payload_bytes);
        proof {
            assert(rewritten.len() == total);
        }
        let mut out: Vec<OutPacket> = Vec::new();
        let ghost all0 = all@;
        let first = all.remove(0);
        let ghost all1 = all@;
        let second = all.remove(0);
        let b0 = get_end_info(&first);
        proof {
            assert(packets_model(all0)[0] == first@);
            assert(packets_model(all1)[0] == second@);
            assert(packets_model(all1) =~= packets_model(all0).drop_first());
            assert(packets_model(all@) =~= packets_model(all1).drop_first());
        }
        out.push(OutPacket { data: first.data, serial: first.serial, absgp: first.absgp, boundary: b0 });
        out.push(
            OutPacket {
                data: payload,
                serial: second.serial,
                absgp: second.absgp,
                boundary: PacketBoundary::EndPage,
            },
        );
        proof {
            assert(out_packets_model(out@) =~= rewritten.take(2));
            assert(packets_model(all@) =~= ps.subrange(2, total));
        }
        while all.len() > 0
            invariant
                ps == ogg_packets(original@),
                rewritten == rewritten_models(ps, payload_bytes),
                total == ps.len(),
                rewritten.len() == total,
                2 <= out@.len() <= total,
                out@.len() + all@.len() == total,
                packets_model(all@) == ps.subrange(out@.len() as int, total),
                out_packets_model(out@) == rewritten.take(out@.len() as int),
            decreases all@.len(),
        {
            let ghost k = out@.len() as int;
            let ghost allk = all@;
            let p = all.remove(0);
            proof {
                assert(packets_model(allk)[0] == p@);
                assert(ps.subrange(k, total)[0] == ps[k]);
                assert(packets_model(all@) =~= packets_model(allk).drop_first());
                assert(packets_model(all@) =~= ps.subrange(k + 1, total));
            }
            let b = get_end_info(&p);
            out.push(OutPacket { data: p.data, serial: p.serial, absgp: p.absgp, boundary: b });
            proof {
                assert(rewritten[k] == copied_packet(ps[k]));
                assert(out_packets_model(out@) =~= rewritten.take(k + 1));
            }
        }
        proof {
            assert(out_packets_model(out@) =~= rewritten);
        }
        ogg_write_stream(out)
    }
}

/// Updating the values of a present key to a non-empty list preserves the
/// invariant and stores exactly those values.
proof fn lemma_entries_update_values_wf(
    entries: Seq<(Seq<char>, Seq<Seq<char>>)>,
    k: Seq<char>,
    vs: Seq<Seq<char>>,
)
    requires
        tag_entries_wf(entries),
        has_key(entries, k),
        is_lower(k),
        vs.len() > 0,
    ensures
        tag_entries_wf(entries.update(key_index(entries, k), (k, vs))),
        has_key(entries.update(key_index(entries, k), (k, vs)), k),
        values_of(entries.update(key_index(entries, k), (k, vs)), k) == vs,
{
    let i = key_index(entries, k);
    lemma_key_index(entries, k, i);
    assert(tag_entries_wf(entries.update(i, (k, vs))));
    lemma_key_index(entries.update(i, (k, vs)), k, i);
}

/// The number of stored values that decode to a picture of type `t`.
pub open spec fn picture_type_count(values: Seq<Seq<char>>, t: PictureType) -> int
    decreases values.len(),
{
    if values.len() == 0 {
        0
    } else {
        picture_type_count(values.drop_last(), t) + (
        if decoded_picture(values.last()) matches Some(pm) && pm.picture_type == t {
            1int
        } else {
            0int
        })
    }
}

/// The count splits over concatenation.
proof fn lemma_count_concat(a: Seq<Seq<char>>, b: Seq<Seq<char>>, t: PictureType)
    ensures
        picture_type_count(a + b, t) == picture_type_count(a, t) + picture_type_count(b, t),
    decreases b.len(),
{
    if b.len() == 0 {
        assert(a + b =~= a);
    } else {
        lemma_count_concat(a, b.drop_last(), t);
        assert((a + b).drop_last() =~= a + b.drop_last());
        assert((a + b).last() == b.last());
    }
}

/// The count is zero exactly when no stored value decodes to type `t`.
proof fn lemma_count_zero(values: Seq<Seq<char>>, t: PictureType)
    ensures
        picture_type_count(values, t) >= 0,
        (picture_type_count(values, t) == 0) <==> (forall|i: int|
            0 <= i < values.len() ==> !(decoded_picture(#[trigger] values[i]) matches Some(pm)
                && pm.picture_type == t)),
    decreases values.len(),
{
    if values.len() > 0 {
        lemma_count_zero(values.drop_last(), t);
        if picture_type_count(values, t) == 0 {
            assert forall|i: int| 0 <= i < values.len() implies !(decoded_picture(
                #[trigger] values[i],
            ) matches Some(pm) && pm.picture_type == t) by {
                if i < values.len() - 1 {
                    assert(values.drop_last()[i] == values[i]);
                } else {
                    assert(values.last() == values[i]);
                }
            }
        } else {
        }
        if forall|i: int|
            0 <= i < values.len() ==> !(decoded_picture(#[trigger] values[i]) matches Some(pm)
                && pm.picture_type == t) {
            assert forall|i: int| 0 <= i < values.drop_last().len() implies !(decoded_picture(
                #[trigger] values.drop_last()[i],
            ) matches Some(pm) && pm.picture_type == t) by {
                assert(values.drop_last()[i] == values[i]);
            }
            assert(!(decoded_picture(values.last()) matches Some(pm) && pm.picture_type == t));
        }
    }
}

/// There is no first match exactly when no stored value matches.
proof fn lemma_first_pic_none(values: Seq<Seq<char>>, t: PictureType, from: int)
    requires
        0 <= from <= values.len(),
    ensures
        (first_pic_from(values, t, from) is None) <==> (forall|i: int|
            from <= i < values.len() ==> !(decoded_picture(#[trigger] values[i]) matches Some(pm)
                && pm.picture_type == t)),
    decreases values.len() - from,
{
    if from < values.len() {
        lemma_first_pic_none(values, t, from + 1);
    }
}

/// A found first match points at a matching value within bounds.
proof fn lemma_first_pic_some(values: Seq<Seq<char>>, t: PictureType, from: int)
    requires
        0 <= from <= values.len(),
        first_pic_from(values, t, from) is Some,
    ensures
        ({
            let i = first_pic_from(values, t, from)->0;
            &&& from <= i < values.len()
            &&& decoded_picture(values[i]) matches Some(pm) && pm.picture_type == t
        }),
    decreases values.len() - from,
{
    if from < values.len() {
        if !(decoded_picture(values[from]) matches Some(pm) && pm.picture_type == t) {
            lemma_first_pic_some(values, t, from + 1);
        }
    }
}

/// Removing the first match lowers the count by one.
proof fn lemma_count_remove_first(values: Seq<Seq<char>>, t: PictureType)
    requires
        first_pic_from(values, t, 0) is Some,
    ensures
        ({
            let i = first_pic_from(values, t, 0)->0;
            picture_type_count(values.remove(i), t) == picture_type_count(values, t) - 1
        }),
{
    let i = first_pic_from(values, t, 0)->0;
    lemma_first_pic_some(values, t, 0);
    let front = values.take(i);
    let back = values.skip(i + 1);
    assert(values =~= front + (seq![values[i]] + back));
    assert(values.remove(i) =~= front + back);
    lemma_count_concat(front, seq![values[i]] + back, t);
    lemma_count_concat(seq![values[i]], back, t);
    lemma_count_concat(front, back, t);
    assert(picture_type_count(seq![values[i]], t) == 1) by {
        assert(picture_type_count(Seq::<Seq<char>>::empty(), t) == 0);
        assert(seq![values[i]].drop_last() =~= Seq::<Seq<char>>::empty());
        assert(seq![values[i]].last() == values[i]);
    }
}

/// The values stored under the reserved key after a picture of type `t`
/// was removed: the first matching value leaves, nothing else changes.
proof fn lemma_remove_picture_values(entries: Seq<(Seq<char>, Seq<Seq<char>>)>, t: PictureType)
    requires
        tag_entries_wf(entries),
    ensures
        tag_entries_wf(entries_remove_picture(entries, t)),
        values_of(entries_remove_picture(entries, t), picture_key_spec()) == (
        match first_pic_from(values_of(entries, picture_key_spec()), t, 0) {
            Some(i) => values_of(entries, picture_key_spec()).remove(i),
            None => values_of(entries, picture_key_spec()),
        }),
{
    let k = picture_key_spec();
    let vs = values_of(entries, k);
    let r = entries_remove_picture(entries, t);
    match first_pic_from(vs, t, 0) {
        None => {},
        Some(i) => {
            lemma_first_pic_some(vs, t, 0);
            assert(has_key(entries, k)) by {
                if !has_key(entries, k) {
                    assert(vs =~= Seq::<Seq<char>>::empty());
                }
            }
            reveal_strlit("metadata_block_picture");
            assert(is_lower(k));
            if vs.remove(i).len() == 0 {
                lemma_entries_remove_wf(entries, k);
                assert(values_of(r, k) =~= vs.remove(i));
            } else {
                lemma_entries_update_values_wf(entries, k, vs.remove(i));
            }
        },
    }
}

/// After a removal of type `t`, at most one match can remain; starting
/// from at most one match, none remains.
///
/// Removing a picture type twice in a row returns the picture on the
/// first call and nothing on the second: the first call returns the first
/// stored picture of the type, and this law says the state it leaves
/// holds no picture of that type, so the second call returns `None` and
/// leaves the tag unchanged.
pub proof fn lemma_remove_picture_twice(entries: Seq<(Seq<char>, Seq<Seq<char>>)>, t: PictureType)
    requires
        tag_entries_wf(entries),
        picture_type_count(values_of(entries, picture_key_spec()), t) <= 1,
    ensures
        found_picture(entries_remove_picture(entries, t), t) is None,
        found_picture(entries, t) is None ==> entries_remove_picture(entries, t) == entries,
{
    let k = picture_key_spec();
    let vs = values_of(entries, k);
    lemma_remove_picture_values(entries, t);
    let vs2 = values_of(entries_remove_picture(entries, t), k);
    match first_pic_from(vs, t, 0) {
        None => {
            lemma_first_pic_none(vs, t, 0);
            lemma_first_pic_none(vs2, t, 0);
        },
        Some(i) => {
            lemma_first_pic_some(vs, t, 0);
            lemma_count_remove_first(vs, t);
            lemma_count_zero(vs, t);
            lemma_count_zero(vs2, t);
            lemma_first_pic_none(vs2, t, 0);
        },
    }
}

/// Adding a picture `p`, stored as a value `s` that decodes back to `p`,
/// on top of a state holding at most one picture of `p`'s type, leaves a
/// state where that type is stored exactly once and reads back as `p`.
///
/// With `s1` and `s2` the stored forms of `p1` and `p2` sharing one
/// picture type, after adding `p1` and then `p2` the tag returns `p2` for
/// that type, and its stored pictures hold exactly one entry of the type.
#[verifier::rlimit(40)]
pub proof fn lemma_add_picture_unique(
    entries: Seq<(Seq<char>, Seq<Seq<char>>)>,
    p: PictureModel,
    s: Seq<char>,
)
    requires
        tag_entries_wf(entries),
        decoded_picture(s) == Some(p),
        picture_type_count(values_of(entries, picture_key_spec()), p.picture_type) <= 1,
    ensures
        ({
            let after = entries_add(
                entries_remove_picture(entries, p.picture_type),
                picture_key_spec(),
                seq![s],
            );
            &&& found_picture(after, p.picture_type) == Some(p)
            &&& picture_type_count(values_of(after, picture_key_spec()), p.picture_type) == 1
            &&& models_of_type_count(
                decoded_pictures(values_of(after, picture_key_spec())),
                p.picture_type,
            ) == 1
        }),
{
    let t = p.picture_type;
    let k = picture_key_spec();
    let vs = values_of(entries, k);
    lemma_remove_picture_values(entries, t);
    let removed = entries_remove_picture(entries, t);
    let vs1 = values_of(removed, k);
    match first_pic_from(vs, t, 0) {
        None => {
            lemma_first_pic_none(vs, t, 0);
            lemma_count_zero(vs, t);
        },
        Some(i) => {
            lemma_count_remove_first(vs, t);
        },
    }
    lemma_count_zero(vs1, t);
    assert(picture_type_count(vs1, t) == 0);
    reveal_strlit("metadata_block_picture");
    assert(is_lower(k));
    lemma_entries_add_wf(removed, k, seq![s]);
    let after = entries_add(removed, k, seq![s]);
    let vs2 = values_of(after, k);
    assert(vs2 == vs1 + seq![s]);
    lemma_count_concat(vs1, seq![s], t);
    assert(picture_type_count(seq![s], t) == 1) by {
        assert(picture_type_count(Seq::<Seq<char>>::empty(), t) == 0);
        assert(seq![s].drop_last() =~= Seq::<Seq<char>>::empty());
        assert(seq![s].last() == s);
    }
    lemma_count_zero(vs1, t);
    lemma_first_pic_skip(vs2, t, vs1.len() as int);
    assert(first_pic_from(vs2, t, 0) == Some(vs1.len() as int)) by {
        assert(vs2[vs1.len() as int] == s);
    }
    assert(found_picture(after, t) == Some(p));
    lemma_decoded_pictures_count(vs2, t);
}

/// Replacing the values of a lowercase key preserves the invariant.
proof fn lemma_set_wf(entries: Seq<(Seq<char>, Seq<Seq<char>>)>, k: Seq<char>, vs: Seq<Seq<char>>)
    requires
        tag_entries_wf(entries),
        is_lower(k),
        vs.len() > 0,
    ensures
        tag_entries_wf(entries_set(entries, k, vs)),
{
    let r = entries_set(entries, k, vs);
    if has_key(entries, k) {
        let i = key_index(entries, k);
        lemma_key_index(entries, k, i);
        assert(tag_entries_wf(r));
    } else {
        assert forall|i: int, j: int| 0 <= i < j < r.len() implies (#[trigger] r[i]).0 != (
        #[trigger] r[j]).0 by {
            if j == entries.len() as int {
                assert(r[i].0 == entries[i].0);
                if r[i].0 == k {
                    assert(has_key(entries, k));
                }
            }
        }
        assert(tag_entries_wf(r));
    }
}

} // verus!
