use vstd::prelude::*;
use vstd::utf8::*;

verus! {

/// The mathematical value of a tag set: the vendor text and the ordered list
/// of `(key, value)` entries, duplicates allowed.
pub ghost struct CommentView {
    pub vendor: Seq<char>,
    pub entries: Seq<(Seq<char>, Seq<char>)>,
}

/// A Vorbis comment header: vendor string plus an ordered multi-map of tags.
#[derive(Clone, Debug)]
pub struct CommentHeader {
    pub vendor: String,
    pub comment_list: Vec<(String, String)>,
}

pub open spec fn entry_view(e: (String, String)) -> (Seq<char>, Seq<char>) {
    (e.0@, e.1@)
}

impl View for CommentHeader {
    type V = CommentView;

    open spec fn view(&self) -> CommentView {
        CommentView { vendor: self.vendor@, entries: self.comment_list@.map_values(|e: (String, String)| entry_view(e)) }
    }
}

/// The lowercase form of a string, as `str::to_lowercase` computes it.
pub uninterp spec fn lower_of(s: Seq<char>) -> Seq<char>;

/// Relies on `str::to_lowercase`: the result depends on the characters alone.
#[verifier::external_body]
fn lowercase(s: &str) -> (r: String)
    ensures
        r@ == lower_of(s@),
{
    s.to_lowercase()
}

/// Whether a stored key matches a queried key, ignoring case.
pub open spec fn key_matches(key: Seq<char>, tag: Seq<char>) -> bool {
    lower_of(key) == lower_of(tag)
}

/// The values, in stored order, of the entries whose key matches `tag`.
pub open spec fn values_for(entries: Seq<(Seq<char>, Seq<char>)>, tag: Seq<char>) -> Seq<Seq<char>>
    decreases entries.len(),
{
    if entries.len() == 0 {
        Seq::empty()
    } else {
        let last = entries.last();
        let rest = values_for(entries.drop_last(), tag);
        if key_matches(last.0, tag) {
            rest.push(last.1)
        } else {
            rest
        }
    }
}

/// The entries that do not match `tag`, in stored order.
pub open spec fn entries_without(entries: Seq<(Seq<char>, Seq<char>)>, tag: Seq<char>) -> Seq<(Seq<char>, Seq<char>)>
    decreases entries.len(),
{
    if entries.len() == 0 {
        Seq::empty()
    } else {
        let last = entries.last();
        let rest = entries_without(entries.drop_last(), tag);
        if key_matches(last.0, tag) {
            rest
        } else {
            rest.push(last)
        }
    }
}


/// Strict lexicographic order on byte strings: the order of `String`.
pub open spec fn bytes_lt(a: Seq<u8>, b: Seq<u8>) -> bool
    decreases a.len(),
{
    if a.len() == 0 {
        b.len() > 0
    } else if b.len() == 0 {
        false
    } else if a[0] != b[0] {
        a[0] < b[0]
    } else {
        bytes_lt(a.drop_first(), b.drop_first())
    }
}

/// Strict order on texts, by their UTF-8 bytes.
pub open spec fn text_lt(a: Seq<char>, b: Seq<char>) -> bool {
    bytes_lt(encode_utf8(a), encode_utf8(b))
}

pub proof fn lemma_bytes_lt_trans(a: Seq<u8>, b: Seq<u8>, c: Seq<u8>)
    requires
        bytes_lt(a, b),
        bytes_lt(b, c),
    ensures
        bytes_lt(a, c),
    decreases a.len(),
{
    if a.len() > 0 && b.len() > 0 && c.len() > 0 && a[0] == b[0] && b[0] == c[0] {
        lemma_bytes_lt_trans(a.drop_first(), b.drop_first(), c.drop_first());
    }
}

pub proof fn lemma_bytes_lt_total(a: Seq<u8>, b: Seq<u8>)
    requires
        a != b,
    ensures
        bytes_lt(a, b) || bytes_lt(b, a),
    decreases a.len(),
{
    if a.len() == 0 {
        assert(b.len() > 0) by {
            if b.len() == 0 {
                assert(a =~= b);
            }
        }
    } else if b.len() > 0 && a[0] == b[0] {
        if a.drop_first() == b.drop_first() {
            assert(a =~= seq![a[0]] + a.drop_first());
            assert(b =~= seq![b[0]] + b.drop_first());
        }
        lemma_bytes_lt_total(a.drop_first(), b.drop_first());
    }
}

pub proof fn lemma_text_lt_total(a: Seq<char>, b: Seq<char>)
    requires
        a != b,
    ensures
        text_lt(a, b) || text_lt(b, a),
{
    encode_utf8_decode_utf8(a);
    encode_utf8_decode_utf8(b);
    lemma_bytes_lt_total(encode_utf8(a), encode_utf8(b));
}

/// A sequence of texts in strictly increasing order (so without duplicates).
pub open spec fn strictly_sorted(s: Seq<Seq<char>>) -> bool {
    forall|i: int, j: int| 0 <= i < j < s.len() ==> text_lt(#[trigger] s[i], #[trigger] s[j])
}

/// Whether `name` is the lowercase form of some key among `entries`.
pub open spec fn is_key_name(entries: Seq<(Seq<char>, Seq<char>)>, name: Seq<char>) -> bool {
    exists|k: int| 0 <= k < entries.len() && name == lower_of(#[trigger] entries[k].0)
}

/// Compares two byte strings in lexicographic order.
fn bytes_less(a: &[u8], b: &[u8]) -> (r: bool)
    ensures
        r == bytes_lt(a@, b@),
{
    let mut i: usize = 0;
    assert(a@.skip(0) =~= a@ && b@.skip(0) =~= b@);
    loop
        invariant
            i <= a.len(),
            i <= b.len(),
            bytes_lt(a@, b@) == bytes_lt(a@.skip(i as int), b@.skip(i as int)),
        decreases a.len() - i,
    {
        if i == a.len() {
            return i < b.len();
        }
        if i == b.len() {
            return false;
        }
        if a[i] != b[i] {
            return a[i] < b[i];
        }
        assert(a@.skip(i as int).drop_first() =~= a@.skip(i + 1));
        assert(b@.skip(i as int).drop_first() =~= b@.skip(i + 1));
        i = i + 1;
    }
}

pub open spec fn strings_view(v: Seq<String>) -> Seq<Seq<char>> {
    v.map_values(|s: String| s@)
}

/// Looking a tag up ignores case: two queries with the same lowercase form
/// find the same values, in the same order.
pub proof fn lemma_lookup_ignores_case(entries: Seq<(Seq<char>, Seq<char>)>, a: Seq<char>, b: Seq<char>)
    requires
        lower_of(a) == lower_of(b),
    ensures
        values_for(entries, a) == values_for(entries, b),
    decreases entries.len(),
{
    if entries.len() > 0 {
        lemma_lookup_ignores_case(entries.drop_last(), a, b);
    }
}

/// After a tag is cleared, looking it up (in any casing with the same
/// lowercase form) finds nothing.
pub proof fn lemma_cleared_tag_is_empty(entries: Seq<(Seq<char>, Seq<char>)>, tag: Seq<char>, query: Seq<char>)
    requires
        lower_of(tag) == lower_of(query),
    ensures
        values_for(entries_without(entries, tag), query).len() == 0,
    decreases entries.len(),
{
    if entries.len() > 0 {
        let rest = entries_without(entries.drop_last(), tag);
        lemma_cleared_tag_is_empty(entries.drop_last(), tag, query);
        if !key_matches(entries.last().0, tag) {
            assert(rest.push(entries.last()).drop_last() =~= rest);
        }
    }
}

/// Reading and editing the tags of a comment header.
pub trait VorbisComments: Sized + View<V = CommentView> {
    /// A header holding exactly the given vendor and entries, keys as given.
    fn from(vendor: String, comment_list: Vec<(String, String)>) -> (r: CommentHeader)
        ensures
            r@.vendor == vendor@,
            r@.entries == comment_list@.map_values(|e: (String, String)| entry_view(e)),
    ;

    /// An empty header: no vendor text and no entries.
    fn new() -> (r: Self)
        ensures
            r@.vendor == Seq::<char>::empty(),
            r@.entries == Seq::<(Seq<char>, Seq<char>)>::empty(),
    ;

    /// The distinct lowercase keys, in increasing byte order.
    fn get_tag_names(&self) -> (r: Vec<String>)
        ensures
            strictly_sorted(strings_view(r@)),
            forall|i: int| 0 <= i < r@.len() ==> is_key_name(self@.entries, #[trigger] r@[i]@),
            forall|k: int|
                0 <= k < self@.entries.len() ==> strings_view(r@).contains(
                    lower_of(#[trigger] self@.entries[k].0),
                ),
    ;

    /// The first value whose key matches `tag` case-insensitively.
    fn get_tag_single(&self, tag: &str) -> (r: Option<String>)
        ensures
            r is None <==> values_for(self@.entries, tag@).len() == 0,
            r is Some ==> r->0@ == values_for(self@.entries, tag@)[0],
    ;

    /// All values whose key matches `tag` case-insensitively, in stored order.
    fn get_tag_multi(&self, tag: &str) -> (r: Vec<String>)
        ensures
            strings_view(r@) == values_for(self@.entries, tag@),
    ;

    /// Removes every entry whose key matches `tag` case-insensitively.
    fn clear_tag(&mut self, tag: &str)
        ensures
            final(self)@.vendor == old(self)@.vendor,
            final(self)@.entries == entries_without(old(self)@.entries, tag@),
    ;

    /// Appends one entry; the key is stored lowercase, the value as given.
    fn add_tag_single(&mut self, tag: &str, value: &str)
        ensures
            final(self)@.vendor == old(self)@.vendor,
            final(self)@.entries == old(self)@.entries.push((lower_of(tag@), value@)),
    ;

    /// Appends one entry per value, in order, all under the lowercase `tag`.
    fn add_tag_multi(&mut self, tag: &str, values: &[String])
        ensures
            final(self)@.vendor == old(self)@.vendor,
            final(self)@.entries == old(self)@.entries + values@.map_values(
                |v: String| (lower_of(tag@), v@),
            ),
    ;

    /// The vendor text.
    fn get_vendor(&self) -> (r: String)
        ensures
            r@ == self@.vendor,
    ;

    /// Replaces the vendor text; the entries stay.
    fn set_vendor(&mut self, vend: &str)
        ensures
            final(self)@.vendor == vend@,
            final(self)@.entries == old(self)@.entries,
    ;
}

impl VorbisComments for CommentHeader {
    fn from(vendor: String, comment_list: Vec<(String, String)>) -> (r: CommentHeader) {
        CommentHeader { vendor, comment_list }
    }

    fn new() -> (r: Self) {
        CommentHeader { vendor: String::new(), comment_list: Vec::new() }
    }

    fn get_tag_names(&self) -> (r: Vec<String>) {
        let mut names: Vec<String> = Vec::new();
        let mut i: usize = 0;
        while i < self.comment_list.len()
            invariant
                i <= self.comment_list.len(),
                strictly_sorted(strings_view(names@)),
                forall|j: int| 0 <= j < names@.len() ==> is_key_name(self@.entries, #[trigger] names@[j]@),
                forall|k: int|
                    0 <= k < i ==> strings_view(names@).contains(lower_of(#[trigger] self@.entries[k].0)),
            decreases self.comment_list.len() - i,
        {
            let name = lowercase(self.comment_list[i].0.as_str());
            assert(self@.entries[i as int].0 == self.comment_list@[i as int].0@);
            let mut p: usize = 0;
            while p < names.len() && bytes_less(names[p].as_str().as_bytes(), name.as_str().as_bytes())
                invariant
                    p <= names.len(),
                    forall|q: int| 0 <= q < p ==> text_lt(#[trigger] names@[q]@, name@),
                decreases names.len() - p,
            {
                p = p + 1;
            }
            let ghost old_names = strings_view(names@);
            if p < names.len() && names[p] == name {
                assert(strings_view(names@)[p as int] == name@);
            } else {
                proof {
                    if p < names.len() {
                        lemma_text_lt_total(names@[p as int]@, name@);
                        assert(old_names[p as int] == names@[p as int]@);
                        assert forall|j: int| p < j < names@.len() implies text_lt(name@, #[trigger] names@[j]@) by {
                            assert(old_names[j] == names@[j]@);
                            assert(text_lt(old_names[p as int], old_names[j]));
                            lemma_bytes_lt_trans(encode_utf8(name@), encode_utf8(old_names[p as int]), encode_utf8(old_names[j]));
                        }
                    }
                }
                names.insert(p, name);
                assert(strings_view(names@) =~= old_names.insert(p as int, name@));
                assert forall|a: int, b: int| 0 <= a < b < names@.len() implies text_lt(
                    #[trigger] strings_view(names@)[a],
                    #[trigger] strings_view(names@)[b],
                ) by {
                    if b < p {
                    } else if b == p {
                        assert(text_lt(old_names[a], name@));
                    } else if a < p {
                        assert(text_lt(old_names[a], name@));
                        assert(text_lt(name@, old_names[b - 1]));
                        lemma_bytes_lt_trans(encode_utf8(old_names[a]), encode_utf8(name@), encode_utf8(old_names[b - 1]));
                    } else if a == p {
                        assert(text_lt(name@, old_names[b - 1]));
                    } else {
                        assert(text_lt(old_names[a - 1], old_names[b - 1]));
                    }
                }
                assert(is_key_name(self@.entries, name@));
                assert forall|k: int| 0 <= k < i implies strings_view(names@).contains(
                    lower_of(#[trigger] self@.entries[k].0),
                ) by {
                    let x = lower_of(self@.entries[k].0);
                    let idx = choose|idx: int| 0 <= idx < old_names.len() && old_names[idx] == x;
                    if idx < p {
                        assert(strings_view(names@)[idx] == x);
                    } else {
                        assert(strings_view(names@)[idx + 1] == x);
                    }
                }
                assert(strings_view(names@)[p as int] == name@);
            }
            i = i + 1;
        }
        names
    }

    fn get_tag_single(&self, tag: &str) -> (r: Option<String>) {
        let tags = self.get_tag_multi(tag);
        if tags.len() == 0 {
            None
        } else {
            assert(strings_view(tags@)[0] == tags@[0]@);
            Some(tags[0].clone())
        }
    }

    fn get_tag_multi(&self, tag: &str) -> (r: Vec<String>) {
        let want = lowercase(tag);
        let mut r: Vec<String> = Vec::new();
        let mut i: usize = 0;
        while i < self.comment_list.len()
            invariant
                i <= self.comment_list.len(),
                want@ == lower_of(tag@),
                strings_view(r@) == values_for(self@.entries.subrange(0, i as int), tag@),
            decreases self.comment_list.len() - i,
        {
            let key = lowercase(self.comment_list[i].0.as_str());
            proof {
                assert(self@.entries.subrange(0, i + 1).drop_last() =~= self@.entries.subrange(0, i as int));
            }
            if key == want {
                r.push(self.comment_list[i].1.clone());
                assert(strings_view(r@) =~= strings_view(r@.drop_last()).push(r@.last()@));
            }
            i = i + 1;
        }
        assert(self@.entries.subrange(0, i as int) =~= self@.entries);
        r
    }

    fn clear_tag(&mut self, tag: &str) {
        let want = lowercase(tag);
        let mut kept: Vec<(String, String)> = Vec::new();
        let mut i: usize = 0;
        while i < self.comment_list.len()
            invariant
                i <= self.comment_list.len(),
                want@ == lower_of(tag@),
                kept@.map_values(|e: (String, String)| entry_view(e)) == entries_without(
                    self@.entries.subrange(0, i as int),
                    tag@,
                ),
            decreases self.comment_list.len() - i,
        {
            let key = lowercase(self.comment_list[i].0.as_str());
            proof {
                assert(self@.entries.subrange(0, i + 1).drop_last() =~= self@.entries.subrange(0, i as int));
            }
            if key != want {
                let e = (self.comment_list[i].0.clone(), self.comment_list[i].1.clone());
                kept.push(e);
                assert(kept@.map_values(|e: (String, String)| entry_view(e)) =~= kept@.drop_last().map_values(
                    |e: (String, String)| entry_view(e),
                ).push(entry_view(kept@.last())));
            }
            i = i + 1;
        }
        assert(self@.entries.subrange(0, i as int) =~= self@.entries);
        self.comment_list = kept;
    }

    fn add_tag_single(&mut self, tag: &str, value: &str) {
        let key = lowercase(tag);
        let val = value.to_owned();
        self.comment_list.push((key, val));
        assert(self@.entries =~= old(self)@.entries.push((lower_of(tag@), value@)));
    }

    fn add_tag_multi(&mut self, tag: &str, values: &[String]) {
        let key = lowercase(tag);
        let mut i: usize = 0;
        while i < values.len()
            invariant
                i <= values.len(),
                key@ == lower_of(tag@),
                self@.vendor == old(self)@.vendor,
                self@.entries == old(self)@.entries + values@.subrange(0, i as int).map_values(
                    |v: String| (lower_of(tag@), v@),
                ),
            decreases values.len() - i,
        {
            let ghost before = self.comment_list@;
            self.comment_list.push((key.clone(), values[i].clone()));
            assert(self.comment_list@.map_values(|e: (String, String)| entry_view(e)) =~= before.map_values(
                |e: (String, String)| entry_view(e),
            ).push((lower_of(tag@), values@[i as int]@)));
            assert(values@.subrange(0, i + 1).map_values(|v: String| (lower_of(tag@), v@)) =~= values@.subrange(
                0,
                i as int,
            ).map_values(|v: String| (lower_of(tag@), v@)).push((lower_of(tag@), values@[i as int]@)));
            assert(self@.entries =~= old(self)@.entries + values@.subrange(0, i + 1).map_values(
                |v: String| (lower_of(tag@), v@),
            ));
            i = i + 1;
        }
        assert(values@.subrange(0, i as int) =~= values@);
    }

    fn get_vendor(&self) -> (r: String) {
        self.vendor.clone()
    }

    fn set_vendor(&mut self, vend: &str) {
        self.vendor = vend.to_owned();
    }
}

} // verus!
