//! Note store orchestration: create, read, list and delete over named
//! notes, composing the sanitizer, the path policy and the cipher.
//!
//! The store models the notes directory: one entry per note, keyed by
//! its sanitized title, holding the cipher-transformed bytes of the
//! note content.  Saving under an existing title overwrites it (last
//! writer wins), loading an absent or undecodable note yields an empty
//! result, and deleting an absent note is not an error.

use vstd::prelude::*;
use vstd::multiset::Multiset;
use vstd::seq_lib::group_to_multiset_ensures;
use vstd::utf8::{decode_utf8, encode_utf8, valid_utf8};
use crate::cipher::{spec_xor, xor_encrypt_decrypt};
use crate::order::{chars_eq, insert_sorted, sorted_le, str_views, views};
use crate::paths::title_of_file_name;
use crate::sanitize::{sanitize, spec_sanitize};
use crate::strutil::{chars_to_string, copy_chars, str_to_chars, utf8_to_string};

verus! {

/// One stored note: its title and the encrypted bytes of its content.
struct Entry {
    name: Vec<char>,
    data: Vec<u8>,
}

/// The titles found among directory entry names: every name that
/// carries the note extension, extension stripped.
pub open spec fn spec_titles(names: Seq<Seq<char>>) -> Multiset<Seq<char>>
    decreases names.len(),
{
    if names.len() == 0 {
        Multiset::empty()
    } else {
        match title_of_file_name(names[0]) {
            Some(t) => spec_titles(names.drop_first()).insert(t),
            None => spec_titles(names.drop_first()),
        }
    }
}

proof fn lemma_spec_titles_push(names: Seq<Seq<char>>, n: Seq<char>)
    ensures
        spec_titles(names.push(n)) == (match title_of_file_name(n) {
            Some(t) => spec_titles(names).insert(t),
            None => spec_titles(names),
        }),
    decreases names.len(),
{
    if names.len() == 0 {
        assert(names.push(n)[0] == n);
        assert(names.push(n).drop_first() =~= names);
    } else {
        assert(names.push(n)[0] == names[0]);
        assert(names.push(n).drop_first() =~= names.drop_first().push(n));
        lemma_spec_titles_push(names.drop_first(), n);
        match (title_of_file_name(names[0]), title_of_file_name(n)) {
            (Some(h), Some(t)) => {
                assert(spec_titles(names.drop_first()).insert(t).insert(h)
                    =~= spec_titles(names.drop_first()).insert(h).insert(t));
            },
            _ => {},
        }
    }
}

/// The note titles among a directory's entry names, extension
/// stripped, in ascending order; names without the extension are not
/// notes and are dropped.
pub fn titles_from_names(names: &Vec<String>) -> (r: Vec<String>)
    ensures
        sorted_le(str_views(r@)),
        str_views(r@).to_multiset() == spec_titles(str_views(names@)),
{
    broadcast use group_to_multiset_ensures;

    let mut acc: Vec<Vec<char>> = Vec::new();
    let mut i: usize = 0;
    proof {
        assert(str_views(names@).take(0) =~= Seq::<Seq<char>>::empty());
        assert(views(acc@).to_multiset() =~= Multiset::<Seq<char>>::empty());
    }
    while i < names.len()
        invariant
            i <= names@.len(),
            sorted_le(views(acc@)),
            views(acc@).to_multiset() == spec_titles(str_views(names@).take(i as int)),
        decreases names@.len() - i,
    {
        let cs = str_to_chars(names[i].as_str());
        match crate::paths::strip_note_extension(&cs) {
            Some(t) => {
                insert_sorted(&mut acc, t);
            },
            None => {},
        }
        proof {
            assert(str_views(names@).take(i as int + 1) =~= str_views(names@).take(
                i as int,
            ).push(names@[i as int]@));
            lemma_spec_titles_push(str_views(names@).take(i as int), names@[i as int]@);
        }
        i = i + 1;
    }
    proof {
        assert(str_views(names@).take(names@.len() as int) =~= str_views(names@));
    }
    let mut out: Vec<String> = Vec::new();
    let mut j: usize = 0;
    while j < acc.len()
        invariant
            j <= acc@.len(),
            out@.len() == j,
            forall|k: int| 0 <= k < j ==> str_views(out@)[k] == views(acc@)[k],
        decreases acc@.len() - j,
    {
        out.push(chars_to_string(&acc[j]));
        j = j + 1;
    }
    proof {
        assert(str_views(out@) =~= views(acc@));
    }
    out
}

/// The text a note's stored bytes hold: deciphered and decoded as
/// UTF-8, or empty when the deciphered bytes are not valid UTF-8.
pub fn decode_note_bytes(bytes: &[u8], key: &[u8]) -> (r: String)
    requires
        key.len() > 0,
    ensures
        r@ == (if valid_utf8(spec_xor(bytes@, key@)) {
            decode_utf8(spec_xor(bytes@, key@))
        } else {
            Seq::<char>::empty()
        }),
{
    let plain = xor_encrypt_decrypt(bytes, key);
    match utf8_to_string(plain) {
        Some(s) => s,
        None => String::new(),
    }
}

/// The encrypted bytes stored under a title, if any.
pub open spec fn spec_lookup(es: Seq<(Seq<char>, Seq<u8>)>, name: Seq<char>) -> Option<Seq<u8>>
    decreases es.len(),
{
    if es.len() == 0 {
        None
    } else if es[0].0 == name {
        Some(es[0].1)
    } else {
        spec_lookup(es.drop_first(), name)
    }
}

/// What loading a title from stored entries yields: empty when the
/// title is rejected, the note is absent, or its bytes do not decrypt
/// to valid UTF-8; otherwise the decrypted text.
pub open spec fn spec_load(
    es: Seq<(Seq<char>, Seq<u8>)>,
    key: Seq<u8>,
    title: Seq<char>,
) -> Seq<char> {
    match spec_sanitize(title) {
        None => Seq::empty(),
        Some(t) => match spec_lookup(es, t) {
            None => Seq::empty(),
            Some(bytes) => {
                let plain = spec_xor(bytes, key);
                if valid_utf8(plain) {
                    decode_utf8(plain)
                } else {
                    Seq::empty()
                }
            },
        },
    }
}

/// Loading a title whose stored bytes are the encrypted content yields
/// exactly that content: with [`NoteStore::save_note_to_disk`]'s
/// contract, a save followed by a load of the same title returns the
/// saved text.
pub proof fn lemma_load_after_save(
    es: Seq<(Seq<char>, Seq<u8>)>,
    key: Seq<u8>,
    title: Seq<char>,
    content: Seq<char>,
)
    requires
        key.len() > 0,
        spec_sanitize(title) is Some,
        spec_lookup(es, spec_sanitize(title)->Some_0) == Some(
            spec_xor(encode_utf8(content), key),
        ),
    ensures
        spec_load(es, key, title) == content,
{
    crate::cipher::lemma_xor_involution(encode_utf8(content), key);
    vstd::utf8::encode_utf8_valid_utf8(content);
    vstd::utf8::encode_utf8_decode_utf8(content);
}

proof fn lemma_lookup_at(es: Seq<(Seq<char>, Seq<u8>)>, name: Seq<char>, i: int)
    requires
        0 <= i < es.len(),
        es[i].0 == name,
        forall|j: int| 0 <= j < i ==> #[trigger] es[j].0 != name,
    ensures
        spec_lookup(es, name) == Some(es[i].1),
    decreases i,
{
    if i > 0 {
        lemma_lookup_at(es.drop_first(), name, i - 1);
    }
}

proof fn lemma_lookup_none(es: Seq<(Seq<char>, Seq<u8>)>, name: Seq<char>)
    requires
        forall|j: int| 0 <= j < es.len() ==> #[trigger] es[j].0 != name,
    ensures
        spec_lookup(es, name) is None,
    decreases es.len(),
{
    if es.len() > 0 {
        lemma_lookup_none(es.drop_first(), name);
    }
}

proof fn lemma_lookup_push(es: Seq<(Seq<char>, Seq<u8>)>, e: (Seq<char>, Seq<u8>), name: Seq<char>)
    ensures
        spec_lookup(es.push(e), name) == (if spec_lookup(es, name) is Some {
            spec_lookup(es, name)
        } else if e.0 == name {
            Some(e.1)
        } else {
            None
        }),
    decreases es.len(),
{
    if es.len() == 0 {
        assert(es.push(e)[0] == e);
        assert(es.push(e).drop_first() =~= es);
    } else {
        assert(es.push(e)[0] == es[0]);
        assert(es.push(e).drop_first() =~= es.drop_first().push(e));
        lemma_lookup_push(es.drop_first(), e, name);
    }
}

proof fn lemma_lookup_remove(es: Seq<(Seq<char>, Seq<u8>)>, i: int, name: Seq<char>)
    requires
        0 <= i < es.len(),
    ensures
        name != es[i].0 ==> spec_lookup(es.remove(i), name) == spec_lookup(es, name),
        (name == es[i].0 && (forall|j: int|
            0 <= j < es.len() && j != i ==> #[trigger] es[j].0 != name)) ==> spec_lookup(
            es.remove(i),
            name,
        ) is None,
    decreases es.len(),
{
    if i == 0 {
        assert(es.remove(0) =~= es.drop_first());
        if name == es[0].0 && (forall|j: int|
            0 <= j < es.len() && j != 0 ==> #[trigger] es[j].0 != name) {
            assert(forall|j: int|
                0 <= j < es.drop_first().len() ==> #[trigger] es.drop_first()[j].0 != name);
            lemma_lookup_none(es.drop_first(), name);
        }
    } else {
        assert(es.remove(i)[0] == es[0]);
        assert(es.remove(i).drop_first() =~= es.drop_first().remove(i - 1));
        lemma_lookup_remove(es.drop_first(), i - 1, name);
        if name == es[i].0 && (forall|j: int|
            0 <= j < es.len() && j != i ==> #[trigger] es[j].0 != name) {
            assert(forall|j: int|
                0 <= j < es.drop_first().len() && j != i - 1 ==> #[trigger] es.drop_first()[j].0
                    != name);
        }
    }
}

proof fn lemma_lookup_contains(es: Seq<(Seq<char>, Seq<u8>)>, name: Seq<char>)
    ensures
        spec_lookup(es, name) is Some <==> exists|i: int|
            0 <= i < es.len() && #[trigger] es[i].0 == name,
    decreases es.len(),
{
    if es.len() > 0 && es[0].0 != name {
        lemma_lookup_contains(es.drop_first(), name);
        if spec_lookup(es, name) is Some {
            let i = choose|i: int|
                0 <= i < es.drop_first().len() && #[trigger] es.drop_first()[i].0 == name;
            assert(es[i + 1].0 == name);
        }
        if exists|i: int| 0 <= i < es.len() && #[trigger] es[i].0 == name {
            let i = choose|i: int| 0 <= i < es.len() && #[trigger] es[i].0 == name;
            assert(es.drop_first()[i - 1].0 == name);
        }
    }
}

/// The persistence engine over named notes.
pub struct NoteStore {
    key: Vec<u8>,
    entries: Vec<Entry>,
}

impl NoteStore {
    /// The cipher key the store was built with.
    pub closed spec fn key(&self) -> Seq<u8> {
        self.key@
    }

    /// The stored notes: pairs of title and encrypted content bytes.
    pub closed spec fn entries_view(&self) -> Seq<(Seq<char>, Seq<u8>)> {
        self.entries@.map_values(|e: Entry| (e.name@, e.data@))
    }

    /// The stored titles, in storage order.
    pub open spec fn names(&self) -> Seq<Seq<char>> {
        self.entries_view().map_values(|p: (Seq<char>, Seq<u8>)| p.0)
    }

    /// The encrypted bytes stored under a title.
    pub open spec fn lookup(&self, name: Seq<char>) -> Option<Seq<u8>> {
        spec_lookup(self.entries_view(), name)
    }

    /// A non-empty key, and one entry per title.
    pub open spec fn wf(&self) -> bool {
        &&& self.key().len() > 0
        &&& forall|i: int, j: int|
            0 <= i < j < self.names().len() ==> #[trigger] self.names()[i]
                != #[trigger] self.names()[j]
    }

    /// A title is stored exactly when a lookup finds bytes under it.
    pub proof fn lemma_stored_iff_lookup(&self, name: Seq<char>)
        ensures
            self.lookup(name) is Some <==> self.names().contains(name),
    {
        lemma_lookup_contains(self.entries_view(), name);
        if self.lookup(name) is Some {
            let i = choose|i: int|
                0 <= i < self.entries_view().len() && #[trigger] self.entries_view()[i].0 == name;
            assert(self.names()[i] == name);
        }
        if self.names().contains(name) {
            let i = choose|i: int|
                0 <= i < self.names().len() && #[trigger] self.names()[i] == name;
            assert(self.entries_view()[i].0 == name);
        }
    }

    /// A store with no notes, using the given cipher key.
    pub fn new(key: Vec<u8>) -> (r: NoteStore)
        requires
            key@.len() > 0,
        ensures
            r.wf(),
            r.key() == key@,
            r.entries_view() == Seq::<(Seq<char>, Seq<u8>)>::empty(),
    {
        let r = NoteStore { key, entries: Vec::new() };
        proof {
            assert(r.entries_view() =~= Seq::<(Seq<char>, Seq<u8>)>::empty());
        }
        r
    }

    fn find(&self, name: &Vec<char>) -> (r: Option<usize>)
        ensures
            match r {
                Some(i) => {
                    &&& i < self.entries@.len()
                    &&& self.entries@[i as int].name@ == name@
                    &&& forall|j: int| 0 <= j < i ==> #[trigger] self.entries@[j].name@ != name@
                },
                None => forall|j: int|
                    0 <= j < self.entries@.len() ==> #[trigger] self.entries@[j].name@ != name@,
            },
    {
        let mut i: usize = 0;
        while i < self.entries.len()
            invariant
                i <= self.entries@.len(),
                forall|j: int| 0 <= j < i ==> #[trigger] self.entries@[j].name@ != name@,
            decreases self.entries@.len() - i,
        {
            if chars_eq(&self.entries[i].name, name) {
                return Some(i);
            }
            i = i + 1;
        }
        None
    }

    /// Stores a note under its sanitized title, encrypting the content;
    /// an existing note under the same title is overwritten.  Fails
    /// only when the title sanitizes to nothing.
    pub fn save_note_to_disk(&mut self, title: &str, content: &str) -> (r: bool)
        requires
            old(self).wf(),
        ensures
            final(self).wf(),
            final(self).key() == old(self).key(),
            match spec_sanitize(title@) {
                None => !r && final(self).entries_view() == old(self).entries_view(),
                Some(t) => {
                    &&& r
                    &&& final(self).lookup(t) == Some(
                        spec_xor(encode_utf8(content@), old(self).key()),
                    )
                    &&& forall|n: Seq<char>|
                        n != t ==> #[trigger] final(self).lookup(n) == old(self).lookup(n)
                },
            },
    {
        let st = match sanitize(title) {
            Some(st) => st,
            None => {
                return false;
            },
        };
        let name = st.into_chars();
        let data = xor_encrypt_decrypt(content.as_bytes(), self.key.as_slice());
        let ghost t = name@;
        let ghost oldes = self.entries_view();
        let ghost pair = (name@, data@);
        match self.find(&name) {
            Some(i) => {
                proof {
                    assert(oldes[i as int].0 == t);
                    assert forall|j: int| 0 <= j < oldes.len() && j != i as int implies (
                    #[trigger] oldes[j].0) != t by {
                        if j < i as int {
                            assert(self.entries@[j].name@ != t);
                        } else {
                            assert(self.names()[j] != self.names()[i as int]);
                        }
                    }
                }
                let _removed = self.entries.remove(i);
                proof {
                    assert(self.entries_view() =~= oldes.remove(i as int));
                    lemma_lookup_remove(oldes, i as int, t);
                    assert forall|n: Seq<char>| true implies #[trigger] spec_lookup(
                        self.entries_view(),
                        n,
                    ) == (if n == t {
                        None::<Seq<u8>>
                    } else {
                        spec_lookup(oldes, n)
                    }) by {
                        lemma_lookup_remove(oldes, i as int, n);
                    }
                    assert forall|j: int|
                        0 <= j < self.entries@.len() implies #[trigger] self.entries@[j].name@
                        != t by {
                        if j < i as int {
                            assert(self.entries@[j].name@ == oldes[j].0);
                        } else {
                            assert(self.entries@[j].name@ == oldes[j + 1].0);
                        }
                    }
                    let names = self.names();
                    assert forall|a: int, b: int| 0 <= a < b < names.len() implies (
                    #[trigger] names[a]) != (#[trigger] names[b]) by {
                        let olda = if a < i as int {
                            a
                        } else {
                            a + 1
                        };
                        let oldb = if b < i as int {
                            b
                        } else {
                            b + 1
                        };
                        assert(names[a] == old(self).names()[olda]);
                        assert(names[b] == old(self).names()[oldb]);
                    }
                }
                self.push_entry(name, data);
                proof {
                    lemma_lookup_push(oldes.remove(i as int), pair, t);
                    lemma_lookup_none(oldes.remove(i as int), t);
                    assert forall|n: Seq<char>| n != t implies #[trigger] final(self).lookup(n)
                        == spec_lookup(oldes, n) by {
                        lemma_lookup_push(oldes.remove(i as int), pair, n);
                        lemma_lookup_remove(oldes, i as int, n);
                    }
                }
            },
            None => {
                proof {
                    assert forall|j: int|
                        0 <= j < self.entries@.len() implies #[trigger] self.entries@[j].name@
                        != t by {}
                }
                self.push_entry(name, data);
                proof {
                    lemma_lookup_push(oldes, pair, t);
                    lemma_lookup_none(oldes, t);
                    assert forall|n: Seq<char>| n != t implies #[trigger] final(self).lookup(n)
                        == spec_lookup(oldes, n) by {
                        lemma_lookup_push(oldes, pair, n);
                    }
                }
            },
        }
        true
    }

    /// Appends an entry whose name is not yet stored, keeping the store
    /// well formed.
    fn push_entry(&mut self, name: Vec<char>, data: Vec<u8>)
        requires
            old(self).wf(),
            forall|j: int|
                0 <= j < old(self).entries@.len() ==> #[trigger] old(self).entries@[j].name@
                    != name@,
        ensures
            final(self).wf(),
            final(self).key() == old(self).key(),
            final(self).entries_view() == old(self).entries_view().push((name@, data@)),
    {
        let ghost oldes = self.entries_view();
        let ghost n = name@;
        self.entries.push(Entry { name, data });
        proof {
            assert(self.entries_view() =~= oldes.push((n, data@)));
            let names = self.names();
            assert forall|i: int, j: int| 0 <= i < j < names.len() implies (#[trigger] names[i])
                != (#[trigger] names[j]) by {
                if j < names.len() - 1 {
                    assert(old(self).names()[i] != old(self).names()[j]);
                } else {
                    assert(names[j] == n);
                    assert(names[i] == old(self).entries@[i].name@);
                }
            }
        }
    }

    /// Reads a note back as text: empty when the title sanitizes to
    /// nothing, the note is absent, or its stored bytes do not decrypt
    /// to valid UTF-8.
    pub fn load_note_from_disk(&self, title: &str) -> (r: String)
        requires
            self.wf(),
        ensures
            r@ == spec_load(self.entries_view(), self.key(), title@),
    {
        let st = match sanitize(title) {
            Some(st) => st,
            None => {
                return String::new();
            },
        };
        let name = st.into_chars();
        match self.find(&name) {
            Some(i) => {
                proof {
                    lemma_lookup_at(self.entries_view(), name@, i as int);
                }
                let plain = xor_encrypt_decrypt(self.entries[i].data.as_slice(),
                    self.key.as_slice());
                match utf8_to_string(plain) {
                    Some(s) => s,
                    None => String::new(),
                }
            },
            None => {
                proof {
                    lemma_lookup_none(self.entries_view(), name@);
                }
                String::new()
            },
        }
    }

    /// The stored titles, sorted ascending; empty when the store is
    /// empty.
    pub fn list_note_titles(&self) -> (r: Vec<String>)
        ensures
            sorted_le(str_views(r@)),
            str_views(r@).to_multiset() == self.names().to_multiset(),
    {
        broadcast use group_to_multiset_ensures;

        let mut acc: Vec<Vec<char>> = Vec::new();
        let mut i: usize = 0;
        proof {
            assert(self.names().take(0) =~= Seq::<Seq<char>>::empty());
            assert(views(acc@).to_multiset() =~= Multiset::<Seq<char>>::empty());
        }
        while i < self.entries.len()
            invariant
                i <= self.entries@.len(),
                sorted_le(views(acc@)),
                views(acc@).to_multiset() == self.names().take(i as int).to_multiset(),
            decreases self.entries@.len() - i,
        {
            let copied = copy_chars(&self.entries[i].name);
            insert_sorted(&mut acc, copied);
            proof {
                assert(self.names().take(i as int + 1) =~= self.names().take(i as int).push(
                    self.names()[i as int],
                ));
                assert(self.names()[i as int] == self.entries@[i as int].name@);
                vstd::seq_lib::to_multiset_build(
                    self.names().take(i as int),
                    self.names()[i as int],
                );
            }
            i = i + 1;
        }
        proof {
            assert(self.names().take(self.names().len() as int) =~= self.names());
        }
        let mut out: Vec<String> = Vec::new();
        let mut j: usize = 0;
        while j < acc.len()
            invariant
                j <= acc@.len(),
                out@.len() == j,
                forall|k: int| 0 <= k < j ==> str_views(out@)[k] == views(acc@)[k],
            decreases acc@.len() - j,
        {
            out.push(chars_to_string(&acc[j]));
            j = j + 1;
        }
        proof {
            assert(str_views(out@) =~= views(acc@));
        }
        out
    }

    /// Removes a note; removing an absent note, or one whose title
    /// sanitizes to nothing, changes nothing and is not an error.
    pub fn delete_note_from_disk(&mut self, title: &str)
        requires
            old(self).wf(),
        ensures
            final(self).wf(),
            final(self).key() == old(self).key(),
            match spec_sanitize(title@) {
                None => final(self).entries_view() == old(self).entries_view(),
                Some(t) => final(self).lookup(t) is None && forall|n: Seq<char>|
                    n != t ==> #[trigger] final(self).lookup(n) == old(self).lookup(n),
            },
    {
        let st = match sanitize(title) {
            Some(st) => st,
            None => {
                return ;
            },
        };
        let name = st.into_chars();
        let ghost t = name@;
        let ghost oldes = self.entries_view();
        match self.find(&name) {
            Some(i) => {
                proof {
                    assert(oldes[i as int].0 == t);
                    assert forall|j: int| 0 <= j < oldes.len() && j != i as int implies (
                    #[trigger] oldes[j].0) != t by {
                        if j < i as int {
                            assert(self.entries@[j].name@ != t);
                        } else {
                            assert(self.names()[j] != self.names()[i as int]);
                        }
                    }
                }
                let _removed = self.entries.remove(i);
                proof {
                    assert(self.entries_view() =~= oldes.remove(i as int));
                    lemma_lookup_remove(oldes, i as int, t);
                    assert forall|n: Seq<char>| n != t implies #[trigger] final(self).lookup(n)
                        == spec_lookup(oldes, n) by {
                        lemma_lookup_remove(oldes, i as int, n);
                    }
                    let names = self.names();
                    assert forall|a: int, b: int| 0 <= a < b < names.len() implies (
                    #[trigger] names[a]) != (#[trigger] names[b]) by {
                        let olda = if a < i as int {
                            a
                        } else {
                            a + 1
                        };
                        let oldb = if b < i as int {
                            b
                        } else {
                            b + 1
                        };
                        assert(names[a] == old(self).names()[olda]);
                        assert(names[b] == old(self).names()[oldb]);
                    }
                }
            },
            None => {
                proof {
                    lemma_lookup_none(oldes, t);
                }
            },
        }
    }
}

} // verus!
