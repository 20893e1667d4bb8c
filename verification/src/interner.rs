use vstd::prelude::*;

verus! {

/// The number of an interned string.
#[derive(Debug, Clone, Copy, PartialEq, Eq, Structural)]
pub struct StringId(pub usize);

/// The first position, from `i` on, that holds `s`.
pub open spec fn find_str_from(v: Seq<Seq<char>>, s: Seq<char>, i: int) -> Option<int>
    decreases v.len() - i,
{
    if i < 0 || i >= v.len() {
        None
    } else if v[i] == s {
        Some(i)
    } else {
        find_str_from(v, s, i + 1)
    }
}

/// The first position that holds `s`.
pub open spec fn find_str(v: Seq<Seq<char>>, s: Seq<char>) -> Option<int> {
    find_str_from(v, s, 0)
}

/// No string occurs twice.
pub open spec fn distinct(v: Seq<Seq<char>>) -> bool {
    forall|i: int, j: int| 0 <= i < v.len() && 0 <= j < v.len() && i != j ==> v[i] != v[j]
}

pub proof fn lemma_find_str(v: Seq<Seq<char>>, s: Seq<char>, i: int)
    requires
        0 <= i,
    ensures
        find_str_from(v, s, i) matches Some(k) ==> i <= k < v.len() && v[k] == s,
        find_str_from(v, s, i) is None ==> forall|k: int| i <= k < v.len() ==> v[k] != s,
    decreases v.len() - i,
{
    if i < v.len() && v[i] != s {
        lemma_find_str(v, s, i + 1);
    }
}

/// The number `s` gets and the strings after interning it: the number it
/// already has, or the next one with `s` added.
pub open spec fn intern_spec(v: Seq<Seq<char>>, s: Seq<char>) -> (int, Seq<Seq<char>>) {
    match find_str(v, s) {
        Some(i) => (i, v),
        None => (v.len() as int, v.push(s)),
    }
}

/// Interning keeps the strings distinct, the number it gives stands for the
/// string interned, interning the same string again gives the same number
/// and changes nothing, and a different string gets a different number.
pub proof fn law_intern(v: Seq<Seq<char>>, s: Seq<char>, t: Seq<char>)
    requires
        distinct(v),
    ensures
        distinct(intern_spec(v, s).1),
        0 <= intern_spec(v, s).0 < intern_spec(v, s).1.len(),
        intern_spec(v, s).1[intern_spec(v, s).0] == s,
        intern_spec(intern_spec(v, s).1, s) == intern_spec(v, s),
        t != s ==> intern_spec(intern_spec(v, s).1, t).0 != intern_spec(v, s).0,
{
    lemma_find_str(v, s, 0);
    let (id, w) = intern_spec(v, s);
    assert(distinct(w)) by {
        if find_str(v, s) is None {
            assert forall|i: int, j: int| 0 <= i < w.len() && 0 <= j < w.len() && i != j implies w[i] != w[j] by {
                if i == v.len() {
                    assert(w[j] == v[j]);
                } else if j == v.len() {
                    assert(w[i] == v[i]);
                }
            }
        }
    }
    lemma_find_str(w, s, 0);
    lemma_find_str(w, t, 0);
    if let Some(k) = find_str(w, s) {
        if k != id {
            assert(w[k] == w[id]);
        }
    }
}

/// Gives each distinct string a number, in the order they are first seen.
pub struct Interner {
    strings: Vec<String>,
}

pub open spec fn string_views(v: Seq<String>) -> Seq<Seq<char>> {
    v.map_values(|s: String| s@)
}

impl View for Interner {
    type V = Seq<Seq<char>>;

    closed spec fn view(&self) -> Seq<Seq<char>> {
        string_views(self.strings@)
    }
}

impl Interner {
    #[verifier::type_invariant]
    closed spec fn inv(&self) -> bool {
        distinct(string_views(self.strings@))
    }

    /// The strings interned so far never repeat.
    pub fn check_distinct(&self)
        ensures
            distinct(self@),
    {
        proof {
            use_type_invariant(self);
        }
    }
}

impl Default for Interner {
    fn default() -> (r: Self)
        ensures
            r@ == Seq::<Seq<char>>::empty(),
    {
        let r = Interner { strings: Vec::new() };
        assert(r@ =~= Seq::<Seq<char>>::empty());
        r
    }
}

impl Interner {
    /// An interner that has `let` as string 0 and `mut` as string 1.
    pub fn with_predefined_keywords() -> (r: Self)
        ensures
            r@ == seq![seq!['l', 'e', 't'], seq!['m', 'u', 't']],
    {
        let mut interner = Self::default();
        proof {
            reveal_strlit("let");
            reveal_strlit("mut");
        }
        assert("let"@ =~= seq!['l', 'e', 't']);
        assert("mut"@ =~= seq!['m', 'u', 't']);
        interner.intern("let");  // 0
        assert(interner@ =~= seq![seq!['l', 'e', 't']]);
        assert(find_str(interner@, "mut"@) is None) by {
            assert(interner@[0] != "mut"@) by {
                assert(interner@[0][0] != "mut"@[0]);
            }
            assert(find_str_from(interner@, "mut"@, 1) is None);
        }
        interner.intern("mut");  // 1
        assert(interner@ =~= seq![seq!['l', 'e', 't'], seq!['m', 'u', 't']]);
        interner
    }

    /// The number of `string`: the one it already has, or the next one.
    pub fn intern(&mut self, string: &str) -> (r: StringId)
        ensures
            (r.0 as int, final(self)@) == intern_spec(old(self)@, string@),
            match find_str(old(self)@, string@) {
                Some(i) => r.0 == i && final(self)@ == old(self)@,
                None => r.0 == old(self)@.len() && final(self)@ == old(self)@.push(string@),
            },
            r.0 < final(self)@.len(),
            final(self)@[r.0 as int] == string@,
    {
        proof {
            use_type_invariant(&*self);
            lemma_find_str(self@, string@, 0);
        }
        let mut i: usize = 0;
        while i < self.strings.len()
            invariant
                i <= self.strings.len(),
                self@ == old(self)@,
                find_str_from(self@, string@, i as int) == find_str(self@, string@),
            decreases self.strings.len() - i,
        {
            if self.strings[i].as_str().unicode_len() == string.unicode_len() && str_eq(self.strings[i].as_str(), string) {
                return StringId(i);
            }
            i = i + 1;
        }
        let id = StringId(self.strings.len());
        let ghost before = self.strings@;
        let owned = String::from_str(string);
        let mut strings = Vec::new();
        std::mem::swap(&mut strings, &mut self.strings);
        strings.push(owned);
        proof {
            assert(string_views(strings@) =~= string_views(before).push(string@));
        }
        self.strings = strings;
        id
    }

    /// The string numbered `id`, which must have been interned.
    pub fn resolve(&self, id: StringId) -> (r: &str)
        requires
            id.0 < self@.len(),
        ensures
            r@ == self@[id.0 as int],
    {
        self.strings[id.0].as_str()
    }
}

/// Whether two strings are equal.
fn str_eq(a: &str, b: &str) -> (r: bool)
    ensures
        r == (a@ == b@),
{
    let n = a.unicode_len();
    if n != b.unicode_len() {
        return false;
    }
    let mut i: usize = 0;
    while i < n
        invariant
            n == a@.len(),
            n == b@.len(),
            i <= n,
            forall|k: int| 0 <= k < i ==> a@[k] == b@[k],
        decreases n - i,
    {
        if a.get_char(i) != b.get_char(i) {
            return false;
        }
        i = i + 1;
    }
    assert(a@ =~= b@);
    true
}

} // verus!
