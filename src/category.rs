//! Category names and the registry of categories with their spending limits.
use vstd::prelude::*;

use crate::date::{local_today, Date};
use crate::entry::{Entry, EntryModel};
use crate::text::{
    alphabetic, chars_of, is_alphabetic, is_whitespace, lower_of, to_lowercase, trim, trimmed, white_space,
};

verus! {

/// A name is valid when it has a character that is not white space and
/// every character is alphabetic or white space.
pub open spec fn valid_name(s: Seq<char>) -> bool {
    &&& exists|i: int| 0 <= i < s.len() && !white_space(s[i])
    &&& forall|i: int| 0 <= i < s.len() ==> alphabetic(s[i]) || white_space(s[i])
}

/// The form in which category names are stored: valid, without surrounding
/// white space, and already lower case.
pub open spec fn normal_name(s: Seq<char>) -> bool {
    valid_name(s) && lower_of(s) == s && trimmed(s) == s
}

/// The stored form of a name: trimmed, then lower-cased.
pub open spec fn stored_form(s: Seq<char>) -> Seq<char> {
    lower_of(trimmed(s))
}

/// Text that `CategoryName::from_str` accepts.
pub open spec fn parses(s: Seq<char>) -> bool {
    valid_name(s) && normal_name(stored_form(s))
}

/// Strict lexicographic order on character sequences (by code point).
pub open spec fn name_lt(a: Seq<char>, b: Seq<char>) -> bool
    decreases a.len(),
{
    if a.len() == 0 {
        b.len() > 0
    } else if b.len() == 0 {
        false
    } else if a[0] != b[0] {
        a[0] < b[0]
    } else {
        name_lt(a.drop_first(), b.drop_first())
    }
}

pub proof fn lemma_name_lt_irreflexive(a: Seq<char>)
    ensures
        !name_lt(a, a),
    decreases a.len(),
{
    if a.len() > 0 {
        lemma_name_lt_irreflexive(a.drop_first());
    }
}

pub proof fn lemma_name_lt_trichotomy(a: Seq<char>, b: Seq<char>)
    ensures
        name_lt(a, b) || name_lt(b, a) || a == b,
        !(name_lt(a, b) && name_lt(b, a)),
    decreases a.len(),
{
    if a.len() > 0 && b.len() > 0 {
        if a[0] == b[0] {
            lemma_name_lt_trichotomy(a.drop_first(), b.drop_first());
            if a.drop_first() == b.drop_first() {
                assert(a =~= seq![a[0]] + a.drop_first());
                assert(b =~= seq![b[0]] + b.drop_first());
            }
        }
    } else if a.len() == 0 && b.len() == 0 {
        assert(a =~= b);
    }
}

pub proof fn lemma_name_lt_transitive(a: Seq<char>, b: Seq<char>, c: Seq<char>)
    requires
        name_lt(a, b),
        name_lt(b, c),
    ensures
        name_lt(a, c),
    decreases a.len(),
{
    if a.len() > 0 && b.len() > 0 && c.len() > 0 && a[0] == b[0] && b[0] == c[0] {
        lemma_name_lt_transitive(a.drop_first(), b.drop_first(), c.drop_first());
    }
}

/// A validated category label, stored lower-cased.
#[derive(PartialEq, Eq, Debug, Hash, PartialOrd, Ord)]
pub struct CategoryName {
    name: String,
    chars: Vec<char>,
}

/// Why a category name was refused.
#[derive(PartialEq, Eq, Debug)]
pub enum CategoryError {
    /// The category already exists (the stored name).
    Duplicate(String),
    /// The category name is invalid (the text as given).
    Invalid(String),
}

impl CategoryError {
    /// A sentence describing the error, naming the category.
    pub fn message(&self) -> (r: String)
        ensures
            self matches CategoryError::Duplicate(t) ==> r@ == "Category already exists: "@ + t@,
            self matches CategoryError::Invalid(t) ==> r@ == "Invalid category name: "@ + t@,
    {
        match self {
            CategoryError::Duplicate(t) => String::from_str("Category already exists: ").concat(t.as_str()),
            CategoryError::Invalid(t) => String::from_str("Invalid category name: ").concat(t.as_str()),
        }
    }
}

impl View for CategoryName {
    type V = Seq<char>;

    closed spec fn view(&self) -> Seq<char> {
        self.name@
    }
}

impl Clone for CategoryName {
    fn clone(&self) -> (r: Self)
        ensures
            r@ == self@,
    {
        proof {
            use_type_invariant(self);
        }
        let chars = self.chars.clone();
        assert(chars@ =~= self.chars@);
        CategoryName { name: self.name.clone(), chars }
    }
}

/// Whether every character is alphabetic or white space, and one is not white space.
pub fn is_valid_name(s: &str) -> (r: bool)
    ensures
        r == valid_name(s@),
{
    let n = s.unicode_len();
    let mut i: usize = 0;
    let mut seen_visible = false;
    while i < n
        invariant
            n == s@.len(),
            i <= n,
            forall|j: int| 0 <= j < i ==> alphabetic(s@[j]) || white_space(s@[j]),
            seen_visible <==> exists|j: int| 0 <= j < i && !white_space(s@[j]),
        decreases n - i,
    {
        let c = s.get_char(i);
        let ws = is_whitespace(c);
        if !ws && !is_alphabetic(c) {
            assert(!(alphabetic(s@[i as int]) || white_space(s@[i as int])));
            return false;
        }
        if !ws {
            seen_visible = true;
        }
        i += 1;
    }
    seen_visible
}

impl CategoryName {
    #[verifier::type_invariant]
    spec fn inv(self) -> bool {
        self.chars@ == self.name@ && normal_name(self.name@)
    }

    /// Parses a category name, storing it trimmed and lower-cased. Refuses text
    /// that is empty, white space only, or holds a character that is neither
    /// alphabetic nor white space; also refuses text whose stored form would not
    /// be a valid, trimmed name that is its own lower-case form.
    pub fn from_str(s: &str) -> (r: Result<CategoryName, CategoryError>)
        ensures
            r is Ok <==> parses(s@),
            r matches Ok(c) ==> c@ == stored_form(s@),
            r matches Err(e) ==> (e matches CategoryError::Invalid(t) && t@ == s@),
    {
        if !is_valid_name(s) {
            return Err(CategoryError::Invalid(s.to_owned()));
        }
        let lowered = to_lowercase(trim(s));
        if !is_valid_name(lowered.as_str()) {
            return Err(CategoryError::Invalid(s.to_owned()));
        }
        let again = to_lowercase(lowered.as_str());
        if again != lowered {
            return Err(CategoryError::Invalid(s.to_owned()));
        }
        let bare = String::from_str(trim(lowered.as_str()));
        if bare != lowered {
            return Err(CategoryError::Invalid(s.to_owned()));
        }
        let chars = chars_of(lowered.as_str());
        Ok(CategoryName { name: lowered, chars })
    }

    /// The stored (trimmed, lower-case) form of the name.
    pub fn display(&self) -> (r: String)
        ensures
            r@ == self@,
            normal_name(r@),
    {
        proof {
            use_type_invariant(self);
        }
        self.name.clone()
    }

    /// Compares two names lexicographically: negative, zero or positive.
    pub fn compare(&self, other: &CategoryName) -> (r: i8)
        ensures
            r < 0 <==> name_lt(self@, other@),
            r == 0 <==> self@ == other@,
            r > 0 <==> name_lt(other@, self@),
    {
        proof {
            use_type_invariant(self);
            use_type_invariant(other);
        }
        let a = &self.chars;
        let b = &other.chars;
        let mut i: usize = 0;
        assert(a@.skip(0) =~= a@);
        assert(b@.skip(0) =~= b@);
        while i < a.len() && i < b.len() && a[i] == b[i]
            invariant
                i <= a.len(),
                i <= b.len(),
                a@.take(i as int) == b@.take(i as int),
                name_lt(a@, b@) == name_lt(a@.skip(i as int), b@.skip(i as int)),
                name_lt(b@, a@) == name_lt(b@.skip(i as int), a@.skip(i as int)),
            decreases a.len() - i,
        {
            assert(a@.skip(i as int).drop_first() =~= a@.skip(i + 1));
            assert(b@.skip(i as int).drop_first() =~= b@.skip(i + 1));
            assert(a@.take(i + 1) =~= a@.take(i as int).push(a@[i as int]));
            assert(b@.take(i + 1) =~= b@.take(i as int).push(b@[i as int]));
            i += 1;
        }
        proof {
            lemma_name_lt_trichotomy(a@, b@);
            lemma_name_lt_irreflexive(a@);
        }
        if i == a.len() && i == b.len() {
            assert(a@ =~= a@.take(i as int));
            assert(b@ =~= b@.take(i as int));
            0
        } else if i == a.len() {
            assert(a@.skip(i as int).len() == 0);
            -1
        } else if i == b.len() {
            assert(b@.skip(i as int).len() == 0);
            1
        } else if a[i] < b[i] {
            assert(a@.skip(i as int)[0] == a@[i as int]);
            assert(b@.skip(i as int)[0] == b@[i as int]);
            -1
        } else {
            assert(a@.skip(i as int)[0] == a@[i as int]);
            assert(b@.skip(i as int)[0] == b@[i as int]);
            1
        }
    }
}

} // verus!

verus! {

/// Per-category settings: an optional monthly limit (in cents) and whether
/// the category is shown in aggregated output.
#[derive(Clone, Copy, PartialEq, Eq, Structural, Debug)]
pub struct CategoryInfo {
    pub limit: Option<u64>,
    pub displayed: bool,
}

pub open spec fn default_info() -> CategoryInfo {
    CategoryInfo { limit: None, displayed: true }
}

impl Default for CategoryInfo {
    fn default() -> (r: Self)
        ensures
            r == default_info(),
    {
        CategoryInfo { limit: None, displayed: true }
    }
}

/// Keys strictly increasing, hence unique.
pub open spec fn sorted_keys(v: Seq<(Seq<char>, CategoryInfo)>) -> bool {
    forall|i: int, j: int| 0 <= i < j < v.len() ==> name_lt(v[i].0, v[j].0)
}

/// In a sorted registry a key stands at one position only.
pub proof fn lemma_key_unique(v: Seq<(Seq<char>, CategoryInfo)>, pos: int)
    requires
        sorted_keys(v),
        0 <= pos < v.len(),
    ensures
        forall|i: int| 0 <= i < v.len() && i != pos ==> v[i].0 != v[pos].0,
{
    assert forall|i: int| 0 <= i < v.len() && i != pos implies v[i].0 != v[pos].0 by {
        lemma_name_lt_irreflexive(v[pos].0);
    }
}

pub open spec fn has_key(v: Seq<(Seq<char>, CategoryInfo)>, k: Seq<char>) -> bool {
    exists|i: int| 0 <= i < v.len() && v[i].0 == k
}

/// Whether one of the names has view `k`.
pub open spec fn names_contain(v: Seq<CategoryName>, k: Seq<char>) -> bool {
    exists|i: int| 0 <= i < v.len() && v[i]@ == k
}

/// The settings stored under a key, if any.
pub open spec fn info_for(v: Seq<(Seq<char>, CategoryInfo)>, k: Seq<char>) -> Option<CategoryInfo>
    decreases v.len(),
{
    if v.len() == 0 {
        None
    } else if v.last().0 == k {
        Some(v.last().1)
    } else {
        info_for(v.drop_last(), k)
    }
}

proof fn lemma_info_for(v: Seq<(Seq<char>, CategoryInfo)>, k: Seq<char>)
    requires
        sorted_keys(v),
    ensures
        !has_key(v, k) ==> info_for(v, k) is None,
        forall|i: int| 0 <= i < v.len() && v[i].0 == k ==> info_for(v, k) == Some(v[i].1),
    decreases v.len(),
{
    if v.len() > 0 {
        let w = v.drop_last();
        assert(sorted_keys(w));
        lemma_info_for(w, k);
        if v.last().0 != k {
            if has_key(w, k) {
                let t = choose|t: int| 0 <= t < w.len() && w[t].0 == k;
                assert(v[t].0 == k);
            }
            assert forall|i: int| 0 <= i < v.len() && v[i].0 == k implies info_for(v, k) == Some(
                v[i].1,
            ) by {
                assert(i < v.len() - 1);
                assert(w[i] == v[i]);
            }
        } else {
            lemma_key_unique(v, v.len() - 1);
        }
    }
}

/// Outcome of checking a category's monthly limit after a purchase.
#[derive(Clone, Copy, PartialEq, Eq, Structural, Debug)]
pub enum LimitResult {
    /// The category has no limit (or is not registered).
    NoLimitSet,
    /// The purchase is not dated in the current month, so no limit applies.
    NotCurrentMonth,
    /// The month's total stays below the limit.
    UnderLimit,
    /// The month's total reached or passed the limit.
    Exceeded,
}

/// What `check_limit` decides for an entry, given the month's total for its
/// category and today's date.
pub open spec fn limit_outcome(
    v: Seq<(Seq<char>, CategoryInfo)>,
    e: EntryModel,
    month_total: int,
    today: Date,
) -> LimitResult {
    match info_for(v, e.category) {
        Some(info) => match info.limit {
            Some(limit) => if today.year != e.date.year || today.month != e.date.month {
                LimitResult::NotCurrentMonth
            } else if month_total >= limit {
                LimitResult::Exceeded
            } else {
                LimitResult::UnderLimit
            },
            None => LimitResult::NoLimitSet,
        },
        None => LimitResult::NoLimitSet,
    }
}

/// The displayed keys, in order.
pub open spec fn selected_keys(v: Seq<(Seq<char>, CategoryInfo)>) -> Seq<Seq<char>>
    decreases v.len(),
{
    if v.len() == 0 {
        Seq::empty()
    } else if v.last().1.displayed {
        selected_keys(v.drop_last()).push(v.last().0)
    } else {
        selected_keys(v.drop_last())
    }
}

/// One more name taken into account while registering names one by one.
proof fn lemma_keys_step(
    start: Seq<(Seq<char>, CategoryInfo)>,
    before: Seq<(Seq<char>, CategoryInfo)>,
    cur: Seq<(Seq<char>, CategoryInfo)>,
    cats: Seq<CategoryName>,
    i: int,
)
    requires
        0 <= i < cats.len(),
        forall|k: Seq<char>| has_key(cur, k) <==> (has_key(before, k) || k == cats[i]@),
        forall|k: Seq<char>|
            has_key(before, k) <==> (has_key(start, k) || exists|j: int|
                0 <= j < i && cats[j]@ == k),
    ensures
        forall|k: Seq<char>|
            has_key(cur, k) <==> (has_key(start, k) || exists|j: int|
                0 <= j < i + 1 && cats[j]@ == k),
{
    assert forall|k: Seq<char>|
        has_key(cur, k) <==> (has_key(start, k) || exists|j: int|
            0 <= j < i + 1 && cats[j]@ == k) by {
        let e_old = exists|j: int| 0 <= j < i && cats[j]@ == k;
        let e_new = exists|j: int| 0 <= j < i + 1 && cats[j]@ == k;
        if e_new {
            let j = choose|j: int| 0 <= j < i + 1 && cats[j]@ == k;
            if j < i {
                assert(0 <= j < i && cats[j]@ == k);
            }
        }
        if e_old {
            let j = choose|j: int| 0 <= j < i && cats[j]@ == k;
            assert(0 <= j < i + 1 && cats[j]@ == k);
        }
        if k == cats[i]@ {
            assert(0 <= i < i + 1 && cats[i]@ == k);
        }
        assert(e_new <==> (e_old || k == cats[i]@));
    }
}

/// Registry of user-defined categories, ordered by name, with their settings.
pub struct CategoryManager {
    names: Vec<CategoryName>,
    infos: Vec<CategoryInfo>,
}

impl View for CategoryManager {
    type V = Seq<(Seq<char>, CategoryInfo)>;

    closed spec fn view(&self) -> Seq<(Seq<char>, CategoryInfo)> {
        Seq::new(self.names@.len(), |i: int| (self.names@[i]@, self.infos@[i]))
    }
}

impl Default for CategoryManager {
    fn default() -> (r: Self)
        ensures
            r@ == Seq::<(Seq<char>, CategoryInfo)>::empty(),
            r.wf(),
    {
        let r = CategoryManager { names: Vec::new(), infos: Vec::new() };
        assert(r@ =~= Seq::<(Seq<char>, CategoryInfo)>::empty());
        r
    }
}

impl CategoryManager {
    /// Well-formedness: parallel vectors and keys in strictly increasing order.
    pub closed spec fn wf(self) -> bool {
        self.names@.len() == self.infos@.len() && sorted_keys(self@)
    }

    pub proof fn lemma_sorted(&self)
        requires
            self.wf(),
        ensures
            sorted_keys(self@),
    {
    }

    /// Position where `name` stands or would be inserted, and whether it is there.
    fn locate(&self, name: &CategoryName) -> (r: (bool, usize))
        requires
            self.wf(),
        ensures
            r.1 <= self@.len(),
            forall|i: int| 0 <= i < r.1 ==> name_lt(self@[i].0, name@),
            r.1 < self@.len() ==> !name_lt(self@[r.1 as int].0, name@),
            r.0 <==> (r.1 < self@.len() && self@[r.1 as int].0 == name@),
            r.0 <==> has_key(self@, name@),
    {
        let mut i: usize = 0;
        while i < self.names.len() && self.names[i].compare(name) < 0
            invariant
                i <= self.names@.len(),
                self.names@.len() == self.infos@.len(),
                forall|j: int| 0 <= j < i ==> name_lt(self@[j].0, name@),
            decreases self.names@.len() - i,
        {
            i += 1;
        }
        let found = i < self.names.len() && self.names[i].compare(name) == 0;
        proof {
            if has_key(self@, name@) {
                let j = choose|j: int| 0 <= j < self@.len() && self@[j].0 == name@;
                if j < i {
                    lemma_name_lt_irreflexive(name@);
                } else if j > i {
                    lemma_name_lt_trichotomy(self@[i as int].0, name@);
                }
            }
        }
        (found, i)
    }

    /// Inserts a name with default settings unless it is present; says whether it was added.
    fn insert_name(&mut self, name: CategoryName) -> (added: bool)
        requires
            old(self).wf(),
        ensures
            final(self).wf(),
            added <==> !has_key(old(self)@, name@),
            added ==> exists|p: int|
                0 <= p <= old(self)@.len() && final(self)@ == old(self)@.insert(
                    p,
                    (name@, default_info()),
                ),
            !added ==> final(self)@ == old(self)@,
    {
        let (found, pos) = self.locate(&name);
        if found {
            return false;
        }
        let ghost before = self@;
        let ghost nv = name@;
        proof {
            assert forall|j: int| pos <= j < before.len() implies name_lt(nv, before[j].0) by {
                lemma_name_lt_trichotomy(before[pos as int].0, nv);
                if j > pos {
                    lemma_name_lt_transitive(nv, before[pos as int].0, before[j].0);
                }
            }
        }
        self.names.insert(pos, name);
        self.infos.insert(pos, CategoryInfo::default());
        assert(self@ =~= before.insert(pos as int, (nv, default_info())));
        true
    }

    /// Registers a category. Fails with `Invalid` when the text is not a valid
    /// name and with `Duplicate` when its lower-case form is already registered.
    pub fn add(&mut self, category: String) -> (r: Result<(), CategoryError>)
        requires
            old(self).wf(),
        ensures
            final(self).wf(),
            r is Ok <==> parses(category@) && !has_key(old(self)@, stored_form(category@)),
            r matches Err(CategoryError::Invalid(t)) ==> t@ == category@ && !parses(category@),
            r matches Err(CategoryError::Duplicate(t)) ==> t@ == stored_form(category@) && parses(
                category@,
            ) && has_key(old(self)@, stored_form(category@)),
            r is Ok ==> exists|p: int|
                0 <= p <= old(self)@.len() && final(self)@ == old(self)@.insert(
                    p,
                    (stored_form(category@), default_info()),
                ),
            r is Err ==> final(self)@ == old(self)@,
    {
        let name = match CategoryName::from_str(category.as_str()) {
            Ok(n) => n,
            Err(e) => return Err(e),
        };
        let shown = name.display();
        if self.insert_name(name) {
            Ok(())
        } else {
            Err(CategoryError::Duplicate(shown))
        }
    }

    /// Registers every given name not already present; present ones are skipped.
    pub fn append_categories(&mut self, categories: Vec<CategoryName>) -> (r: Result<(), CategoryError>)
        requires
            old(self).wf(),
        ensures
            final(self).wf(),
            r is Ok,
            forall|k: Seq<char>|
                has_key(final(self)@, k) <==> (has_key(old(self)@, k) || exists|j: int|
                    0 <= j < categories@.len() && categories@[j]@ == k),
            forall|i: int| 0 <= i < old(self)@.len() ==> final(self)@.contains(old(self)@[i]),
            forall|i: int|
                0 <= i < final(self)@.len() && !has_key(old(self)@, final(self)@[i].0)
                    ==> final(self)@[i].1 == default_info(),
    {
        let ghost start = self@;
        let mut i: usize = 0;
        while i < categories.len()
            invariant
                self.wf(),
                i <= categories@.len(),
                forall|k: Seq<char>|
                    has_key(self@, k) <==> (has_key(start, k) || exists|j: int|
                        0 <= j < i && categories@[j]@ == k),
                forall|t: int| 0 <= t < start.len() ==> self@.contains(start[t]),
                forall|t: int|
                    0 <= t < self@.len() && !has_key(start, self@[t].0) ==> self@[t].1
                        == default_info(),
            decreases categories@.len() - i,
        {
            let ghost before = self@;
            let name = categories[i].clone();
            let added = self.insert_name(name);
            proof {
                let cur = self@;
                let nk = categories@[i as int]@;
                if added {
                    let p = choose|p: int|
                        0 <= p <= before.len() && cur == before.insert(p, (nk, default_info()));
                    assert forall|t: int| 0 <= t < before.len() implies cur.contains(before[t]) by {
                        if t < p {
                            assert(cur[t] == before[t]);
                        } else {
                            assert(cur[t + 1] == before[t]);
                        }
                    }
                    assert forall|k: Seq<char>| has_key(cur, k) <==> (has_key(before, k) || k == nk) by {
                        if has_key(cur, k) {
                            let t = choose|t: int| 0 <= t < cur.len() && cur[t].0 == k;
                            if t < p {
                                assert(before[t].0 == k);
                            } else if t > p {
                                assert(before[t - 1].0 == k);
                            }
                        }
                        if has_key(before, k) {
                            let t = choose|t: int| 0 <= t < before.len() && before[t].0 == k;
                            if t < p {
                                assert(cur[t].0 == k);
                            } else {
                                assert(cur[t + 1].0 == k);
                            }
                        }
                        if k == nk {
                            assert(cur[p].0 == k);
                        }
                    }
                    assert forall|t: int|
                        0 <= t < cur.len() && !has_key(start, cur[t].0) implies cur[t].1
                            == default_info() by {
                        if t < p {
                            assert(cur[t] == before[t]);
                        } else if t > p {
                            assert(cur[t] == before[t - 1]);
                        }
                    }
                    assert forall|t: int| 0 <= t < start.len() implies cur.contains(start[t]) by {
                        assert(before.contains(start[t]));
                        let u = choose|u: int| 0 <= u < before.len() && before[u] == start[t];
                        assert(cur.contains(before[u]));
                    }
                }
                if !added {
                    assert(cur == before);
                    assert forall|k: Seq<char>| has_key(cur, k) <==> (has_key(before, k) || k == nk) by {}
                }
                lemma_keys_step(start, before, cur, categories@, i as int);
            }
            i += 1;
        }
        Ok(())
    }

    /// Removes a category and its settings; says whether it was present.
    pub fn delete(&mut self, name: &CategoryName) -> (removed: bool)
        requires
            old(self).wf(),
        ensures
            final(self).wf(),
            removed <==> has_key(old(self)@, name@),
            removed ==> exists|p: int|
                0 <= p < old(self)@.len() && old(self)@[p].0 == name@ && final(self)@
                    == old(self)@.remove(p),
            !removed ==> final(self)@ == old(self)@,
    {
        let (found, pos) = self.locate(name);
        if !found {
            return false;
        }
        let ghost before = self@;
        self.names.remove(pos);
        self.infos.remove(pos);
        assert(self@ =~= before.remove(pos as int));
        true
    }

    /// Sets a category's monthly limit in cents; an amount of zero or less clears it.
    pub fn set_limit(&mut self, name: &CategoryName, amount: Option<i64>)
        requires
            old(self).wf(),
        ensures
            final(self).wf(),
            final(self)@.len() == old(self)@.len(),
            forall|i: int|
                0 <= i < old(self)@.len() ==> final(self)@[i] == if old(self)@[i].0 == name@ {
                    (old(self)@[i].0, CategoryInfo { limit: limit_of(amount), ..old(self)@[i].1 })
                } else {
                    old(self)@[i]
                },
    {
        let limit = match amount {
            Some(a) => if a > 0 {
                Some(a as u64)
            } else {
                None
            },
            None => None,
        };
        let (found, pos) = self.locate(name);
        let ghost before = self@;
        if found {
            proof {
                lemma_key_unique(before, pos as int);
            }
            let info = CategoryInfo { limit, displayed: self.infos[pos].displayed };
            self.infos.set(pos, info);
        }
        assert(forall|i: int| 0 <= i < before.len() ==> self@[i].0 == before[i].0);
        assert forall|i: int| 0 <= i < before.len() implies (self@[i].0 == name@ <==> (found && i
            == pos)) by {
            assert(self@[i].0 == before[i].0);
            if found {
                lemma_key_unique(before, pos as int);
                assert(before[pos as int].0 == name@);
                if i != pos {
                    assert(before[i].0 != before[pos as int].0);
                }
            } else {
                if before[i].0 == name@ {
                    assert(has_key(before, name@));
                }
            }
        }
        assert forall|i: int, j: int| 0 <= i < j < self@.len() implies name_lt(
            self@[i].0,
            self@[j].0,
        ) by {
            assert(name_lt(before[i].0, before[j].0));
        }
    }

    /// Shows or hides a category in aggregated output.
    pub fn toggle_displayed(&mut self, name: &CategoryName, displayed: bool)
        requires
            old(self).wf(),
        ensures
            final(self).wf(),
            final(self)@.len() == old(self)@.len(),
            forall|i: int|
                0 <= i < old(self)@.len() ==> final(self)@[i] == if old(self)@[i].0 == name@ {
                    (old(self)@[i].0, CategoryInfo { displayed, ..old(self)@[i].1 })
                } else {
                    old(self)@[i]
                },
    {
        let (found, pos) = self.locate(name);
        let ghost before = self@;
        if found {
            proof {
                lemma_key_unique(before, pos as int);
            }
            let info = CategoryInfo { limit: self.infos[pos].limit, displayed };
            self.infos.set(pos, info);
        }
        assert(forall|i: int| 0 <= i < before.len() ==> self@[i].0 == before[i].0);
        assert forall|i: int| 0 <= i < before.len() implies (self@[i].0 == name@ <==> (found && i
            == pos)) by {
            assert(self@[i].0 == before[i].0);
            if found {
                lemma_key_unique(before, pos as int);
                assert(before[pos as int].0 == name@);
                if i != pos {
                    assert(before[i].0 != before[pos as int].0);
                }
            } else {
                if before[i].0 == name@ {
                    assert(has_key(before, name@));
                }
            }
        }
        assert forall|i: int, j: int| 0 <= i < j < self@.len() implies name_lt(
            self@[i].0,
            self@[j].0,
        ) by {
            assert(name_lt(before[i].0, before[j].0));
        }
    }

    /// Shows or hides every category.
    pub fn set_all_displayed(&mut self, displayed: bool)
        requires
            old(self).wf(),
        ensures
            final(self).wf(),
            final(self)@.len() == old(self)@.len(),
            forall|i: int|
                0 <= i < old(self)@.len() ==> final(self)@[i] == (
                    old(self)@[i].0,
                    CategoryInfo { displayed, ..old(self)@[i].1 },
                ),
    {
        let ghost start = self@;
        let mut i: usize = 0;
        while i < self.infos.len()
            invariant
                self.names@.len() == self.infos@.len(),
                self@.len() == start.len(),
                i <= self@.len(),
                forall|t: int| 0 <= t < start.len() ==> self@[t].0 == start[t].0,
                forall|t: int| 0 <= t < i ==> self@[t].1 == (CategoryInfo { displayed, ..start[t].1 }),
                forall|t: int| i <= t < start.len() ==> self@[t].1 == start[t].1,
            decreases self@.len() - i,
        {
            let info = CategoryInfo { limit: self.infos[i].limit, displayed };
            self.infos.set(i, info);
            i += 1;
        }
        assert(sorted_keys(self@));
    }

    /// The names whose category is displayed, in name order.
    pub fn selected_categories(&self) -> (r: Vec<CategoryName>)
        requires
            self.wf(),
        ensures
            r@.map_values(|c: CategoryName| c@) == selected_keys(self@),
    {
        let mut out: Vec<CategoryName> = Vec::new();
        let mut i: usize = 0;
        while i < self.names.len()
            invariant
                self.wf(),
                i <= self@.len(),
                out@.map_values(|c: CategoryName| c@) == selected_keys(self@.take(i as int)),
            decreases self@.len() - i,
        {
            assert(self@.take(i + 1).drop_last() =~= self@.take(i as int));
            if self.infos[i].displayed {
                out.push(self.names[i].clone());
            }
            assert(out@.map_values(|c: CategoryName| c@) =~= selected_keys(self@.take(i + 1)));
            i += 1;
        }
        assert(self@.take(i as int) =~= self@);
        out
    }

    /// Every registered name, in name order.
    pub fn categories(&self) -> (r: Vec<CategoryName>)
        requires
            self.wf(),
        ensures
            r@.map_values(|c: CategoryName| c@) == self@.map_values(|p: (Seq<char>, CategoryInfo)| p.0),
    {
        let mut out: Vec<CategoryName> = Vec::new();
        let mut i: usize = 0;
        while i < self.names.len()
            invariant
                self.wf(),
                i <= self@.len(),
                out@.map_values(|c: CategoryName| c@) == self@.take(i as int).map_values(
                    |p: (Seq<char>, CategoryInfo)| p.0,
                ),
            decreases self@.len() - i,
        {
            let ghost prev = out@;
            let c = self.names[i].clone();
            out.push(c);
            assert(self@.take(i + 1) =~= self@.take(i as int).push(self@[i as int]));
            assert(out@ =~= prev.push(c));
            assert(out@.map_values(|c: CategoryName| c@) =~= prev.map_values(|c: CategoryName| c@).push(c@));
            assert(self@.take(i + 1).map_values(|p: (Seq<char>, CategoryInfo)| p.0)
                =~= self@.take(i as int).map_values(|p: (Seq<char>, CategoryInfo)| p.0).push(self@[i as int].0));
            i += 1;
        }
        assert(self@.take(i as int) =~= self@);
        out
    }

    /// The settings of a category, if it is registered.
    pub fn info(&self, name: &CategoryName) -> (r: Option<CategoryInfo>)
        requires
            self.wf(),
        ensures
            r is Some <==> has_key(self@, name@),
            r == info_for(self@, name@),
    {
        proof {
            lemma_info_for(self@, name@);
        }
        let (found, pos) = self.locate(name);
        if found {
            Some(self.infos[pos])
        } else {
            None
        }
    }
}

impl CategoryManager {
    /// Checks an entry's category limit against the month's total spent in
    /// that category. Only entries dated in `today`'s month and year are
    /// checked; the limit counts as reached when the total equals it.
    pub fn check_limit(&self, entry: &Entry, month_total: u128, today: &Date) -> (r: LimitResult)
        requires
            self.wf(),
        ensures
            r == limit_outcome(self@, entry@, month_total as int, *today),
    {
        match self.info(&entry.category) {
            Some(info) => match info.limit {
                Some(limit) => if today.year != entry.date.year || today.month != entry.date.month {
                    LimitResult::NotCurrentMonth
                } else if month_total >= limit as u128 {
                    LimitResult::Exceeded
                } else {
                    LimitResult::UnderLimit
                },
                None => LimitResult::NoLimitSet,
            },
            None => LimitResult::NoLimitSet,
        }
    }

    /// `check_limit` against the local clock's current date. When the clock
    /// reads a date outside years 1..=9999 no limit applies.
    pub fn check_limit_today(&self, entry: &Entry, month_total: u128) -> (r: LimitResult)
        requires
            self.wf(),
        ensures
            (info_for(self@, entry@.category) is None || info_for(self@, entry@.category)->0.limit
                is None) ==> r == LimitResult::NoLimitSet,
            r == LimitResult::NotCurrentMonth || exists|today: Date|
                today.wf() && r == limit_outcome(self@, entry@, month_total as int, today),
    {
        let ghost some_day = Date { year: 1, month: 1, day: 1 };
        assert(some_day.wf());
        assert(info_for(self@, entry@.category) is None || info_for(self@, entry@.category)->0.limit
            is None ==> limit_outcome(self@, entry@, month_total as int, some_day)
            == LimitResult::NoLimitSet);
        match self.info(&entry.category) {
            Some(info) => if info.limit.is_none() {
                return LimitResult::NoLimitSet;
            },
            None => return LimitResult::NoLimitSet,
        }
        let (y, m, d) = local_today();
        match Date::new(y, m, d) {
            Some(today) => self.check_limit(entry, month_total, &today),
            None => LimitResult::NotCurrentMonth,
        }
    }
}

/// A limit as stored: amounts of zero or less mean "no limit".
pub open spec fn limit_of(amount: Option<i64>) -> Option<u64> {
    match amount {
        Some(a) => if a > 0 { Some(a as u64) } else { None },
        None => None,
    }
}

} // verus!
