use std::sync::Arc;
use vstd::prelude::*;

verus! {

/// An immutable handle to text held by an [`Interner`].
///
/// Handles made by one interner from equal text share one allocation. Equality,
/// ordering and hashing go by the text.
#[derive(Debug, PartialEq, Eq, Hash, PartialOrd, Ord)]
pub struct InternedString(Arc<str>);

impl View for InternedString {
    type V = Seq<char>;

    closed spec fn view(&self) -> Seq<char> {
        (*self.0)@
    }
}

/// Relies on `Arc::<str>::from`: a new shared allocation holding a copy of `s`.
#[verifier::external_body]
fn shared_text(s: &str) -> (r: Arc<str>)
    ensures
        (*r)@ == s@,
{
    Arc::from(s)
}

/// Relies on `Arc::clone`: one more handle to the same allocation.
#[verifier::external_body]
fn share(a: &Arc<str>) -> (r: Arc<str>)
    ensures
        r == *a,
{
    Arc::clone(a)
}

/// Relies on `<str as PartialEq>::eq`: two string slices are equal when their
/// characters are.
#[verifier::external_body]
fn same_text(a: &str, b: &str) -> (r: bool)
    ensures
        r == (a@ == b@),
{
    a == b
}

/// The table after `t` has been interned into it: unchanged when `t` is
/// already there, else `t` appended.
pub open spec fn add_text(table: Seq<Seq<char>>, t: Seq<char>) -> Seq<Seq<char>> {
    if table.contains(t) {
        table
    } else {
        table.push(t)
    }
}

/// The registry of canonical texts: one entry for each distinct text
/// interned so far, in order of first sighting.
pub struct Interner {
    strings: Vec<InternedString>,
}

impl View for Interner {
    type V = Seq<Seq<char>>;

    closed spec fn view(&self) -> Seq<Seq<char>> {
        self.strings@.map_values(|h: InternedString| h@)
    }
}

impl Interner {
    /// The canonical handles, in the order of [`View::view`].
    pub closed spec fn entries(&self) -> Seq<InternedString> {
        self.strings@
    }

    /// No text is held twice.
    pub open spec fn wf(&self) -> bool {
        &&& self@.no_duplicates()
        &&& self.entries().len() == self@.len()
        &&& forall|k: int| 0 <= k < self@.len() ==> #[trigger] self.entries()[k]@ == self@[k]
    }

    /// An empty registry.
    pub fn new() -> (r: Self)
        ensures
            r.wf(),
            r@ == Seq::<Seq<char>>::empty(),
    {
        let r = Interner { strings: Vec::new() };
        assert(r@ =~= Seq::<Seq<char>>::empty());
        r
    }

    /// The number of distinct texts held.
    pub fn len(&self) -> (r: usize)
        requires
            self.wf(),
        ensures
            r == self@.len(),
    {
        self.strings.len()
    }
}

impl InternedString {
    /// The text of this handle.
    pub fn as_str(&self) -> (r: &str)
        ensures
            r@ == self@,
    {
        &self.0
    }

    /// The canonical handle for `s`, registered in `strings` when it is new.
    pub fn from_str(s: &str, strings: &mut Interner) -> (r: Self)
        requires
            old(strings).wf(),
        ensures
            final(strings).wf(),
            r@ == s@,
            final(strings)@ == add_text(old(strings)@, s@),
            final(strings).entries().contains(r),
            forall|h: InternedString|
                #[trigger] old(strings).entries().contains(h) ==> final(strings).entries().contains(h),
    {
        let ghost held = strings.entries();
        let mut i: usize = 0;
        while i < strings.strings.len()
            invariant
                strings.wf(),
                i <= strings@.len(),
                forall|k: int| 0 <= k < i ==> strings@[k] != s@,
            decreases strings@.len() - i,
        {
            if same_text(strings.strings[i].as_str(), s) {
                let r = InternedString(share(&strings.strings[i].0));
                assert(strings@.contains(s@)) by {
                    assert(strings@[i as int] == s@);
                }
                assert(strings.entries()[i as int] == r);
                return r;
            }
            i = i + 1;
        }
        assert(!strings@.contains(s@));
        let v = shared_text(s);
        let r = InternedString(share(&v));
        let ghost before = strings@;
        strings.strings.push(InternedString(v));
        assert(strings@ =~= before.push(s@));
        assert forall|h: InternedString| #[trigger] held.contains(h) implies strings.entries().contains(h) by {
            let k = choose|k: int| 0 <= k < held.len() && held[k] == h;
            assert(strings.entries()[k] == h);
        }
        assert(strings.entries()[before.len() as int] == r);
        r
    }

    /// The canonical handle for the text of `s`; see [`InternedString::from_str`].
    pub fn from_string(s: String, strings: &mut Interner) -> (r: Self)
        requires
            old(strings).wf(),
        ensures
            final(strings).wf(),
            r@ == s@,
            final(strings)@ == add_text(old(strings)@, s@),
            final(strings).entries().contains(r),
            forall|h: InternedString|
                #[trigger] old(strings).entries().contains(h) ==> final(strings).entries().contains(h),
    {
        InternedString::from_str(s.as_str(), strings)
    }
}

/// An interner holds one handle for each text: two handles that it holds for
/// equal text are the same handle, sharing one allocation. Every handle that
/// interning returns stays held, so interning equal text twice, or from many
/// callers in turn, gives the same handle each time.
pub proof fn lemma_canonical_handle(strings: Interner, a: InternedString, b: InternedString)
    requires
        strings.wf(),
        strings.entries().contains(a),
        strings.entries().contains(b),
        a@ == b@,
    ensures
        a == b,
{
    let i = choose|i: int| 0 <= i < strings.entries().len() && strings.entries()[i] == a;
    let j = choose|j: int| 0 <= j < strings.entries().len() && strings.entries()[j] == b;
    assert(strings@[i] == strings@[j]);
}

/// Interning the same text a second time leaves the registry as the first time
/// left it.
pub proof fn lemma_add_text_twice(table: Seq<Seq<char>>, t: Seq<char>)
    ensures
        add_text(table, t).contains(t),
        add_text(add_text(table, t), t) == add_text(table, t),
{
    if !table.contains(t) {
        assert(table.push(t)[table.len() as int] == t);
    }
}

/// Interning keeps one entry for each distinct text.
pub proof fn lemma_add_text_unique(table: Seq<Seq<char>>, t: Seq<char>)
    requires
        table.no_duplicates(),
    ensures
        add_text(table, t).no_duplicates(),
        add_text(table, t).contains(t),
{
    lemma_add_text_twice(table, t);
    if !table.contains(t) {
        let r = table.push(t);
        assert forall|i: int, j: int| 0 <= i < r.len() && 0 <= j < r.len() && i != j implies r[i] != r[j] by {
            if i < table.len() && j < table.len() {
            } else if i < table.len() {
                assert(table.contains(r[i]));
            } else {
                assert(table.contains(r[j]));
            }
        }
    }
}

} // verus!
