use vstd::prelude::*;

verus! {

/// A parsed entity of a file: a declaration, a usage or an import.
pub struct SymbolInstance {
    /// Identity given by the parser, unique across the index.
    pub guid: u64,
    pub name: String,
    pub file_path: String,
}

impl SymbolInstance {
    pub fn duplicate(&self) -> (r: Self)
        ensures
            r == *self,
    {
        SymbolInstance { guid: self.guid, name: self.name.clone(), file_path: self.file_path.clone() }
    }
}

/// The symbols that one file holds.
pub struct FileSymbols {
    pub path: String,
    pub symbols: Vec<SymbolInstance>,
}

/// The guids of the symbols that share a name.
pub struct NameEntry {
    pub name: String,
    pub guids: Vec<u64>,
}

/// The symbol store: one entry per file, an index of symbols by name built by
/// the last resolution pass, and a flag that says whether the store has
/// changed since that pass.
pub struct AstIndex {
    files: Vec<FileSymbols>,
    by_name: Vec<NameEntry>,
    dirty: bool,
}

pub open spec fn has_name(s: Seq<NameEntry>, n: Seq<char>) -> bool {
    exists|i: int| 0 <= i < s.len() && s[i].name@ == n
}

/// The guids listed under name `n` (none when the name is absent).
pub open spec fn guids_under(s: Seq<NameEntry>, n: Seq<char>) -> Seq<u64> {
    if has_name(s, n) {
        s[choose|i: int| 0 <= i < s.len() && s[i].name@ == n].guids@
    } else {
        Seq::empty()
    }
}

pub open spec fn names_distinct(s: Seq<NameEntry>) -> bool {
    forall|i: int, j: int| 0 <= i < s.len() && 0 <= j < s.len() && i != j ==> s[i].name@ != s[j].name@
}

/// The guids of the symbols of `symbols` named `n`, in order.
pub open spec fn guids_named(symbols: Seq<SymbolInstance>, n: Seq<char>) -> Seq<u64>
    decreases symbols.len(),
{
    if symbols.len() == 0 {
        Seq::empty()
    } else if symbols.last().name@ == n {
        guids_named(symbols.drop_last(), n).push(symbols.last().guid)
    } else {
        guids_named(symbols.drop_last(), n)
    }
}

/// Adding guid `g` under name `x` changes the list of `x` alone.
fn add_under(entries: &mut Vec<NameEntry>, x: &String, g: u64)
    requires
        names_distinct(old(entries)@),
    ensures
        names_distinct(final(entries)@),
        forall|n: Seq<char>|
            guids_under(final(entries)@, n) == if n == x@ {
                guids_under(old(entries)@, n).push(g)
            } else {
                guids_under(old(entries)@, n)
            },
{
    let ghost s0 = entries@;
    let n = entries.len();
    let mut i: usize = 0;
    let mut found = false;
    while i < n && !found
        invariant
            entries@ == s0,
            n == s0.len(),
            names_distinct(s0),
            0 <= i <= n,
            found ==> i < n && s0[i as int].name@ == x@,
            forall|k: int| 0 <= k < i ==> s0[k].name@ != x@,
        decreases n - i + (if found { 0int } else { 1int }),
    {
        if entries[i].name == *x {
            found = true;
        } else {
            i += 1;
        }
    }
    if found {
        let mut e = entries.remove(i);
        e.guids.push(g);
        entries.insert(i, e);
    } else {
        entries.push(NameEntry { name: x.clone(), guids: vec![g] });
    }
    let ghost s1 = entries@;
    proof {
        let w = i as int;
        assert(s1[w].name@ == x@);
        assert forall|k: int| 0 <= k < s1.len() && k != w implies s1[k] == s0[k] by {}
        assert(names_distinct(s1)) by {
            assert forall|a: int, b: int| 0 <= a < s1.len() && 0 <= b < s1.len() && a != b implies s1[a].name@ != s1[b].name@ by {
                if a != w && b != w {
                    assert(s1[a] == s0[a] && s1[b] == s0[b]);
                } else if a == w {
                    assert(s1[b] == s0[b]);
                } else {
                    assert(s1[a] == s0[a]);
                }
            }
        }
        assert forall|q: Seq<char>| guids_under(s1, q) == if q == x@ {
            guids_under(s0, q).push(g)
        } else {
            guids_under(s0, q)
        } by {
            if q == x@ {
                assert(has_name(s1, q));
                let c = choose|c: int| 0 <= c < s1.len() && s1[c].name@ == q;
                assert(c == w);
                if found {
                    assert(has_name(s0, q));
                    let d = choose|d: int| 0 <= d < s0.len() && s0[d].name@ == q;
                    assert(d == w);
                } else {
                    assert(!has_name(s0, q));
                    assert(s1[w].guids@ =~= seq![g]);
                    assert(Seq::<u64>::empty().push(g) =~= seq![g]);
                }
            } else {
                if has_name(s0, q) {
                    let d = choose|d: int| 0 <= d < s0.len() && s0[d].name@ == q;
                    assert(d != w);
                    assert(s1[d].name@ == q);
                    let c = choose|c: int| 0 <= c < s1.len() && s1[c].name@ == q;
                    assert(c != w);
                    assert(s0[c].name@ == q);
                }
                if has_name(s1, q) {
                    let c = choose|c: int| 0 <= c < s1.len() && s1[c].name@ == q;
                    assert(c != w);
                    assert(s0[c].name@ == q);
                }
            }
        }
    }
}

pub open spec fn guid_at(files: Seq<FileSymbols>, f: int, k: int) -> u64 {
    files[f].symbols@[k].guid
}

/// File paths are distinct, and no two symbols of the store share a guid.
pub open spec fn files_wf(files: Seq<FileSymbols>) -> bool {
    &&& forall|a: int, b: int|
        0 <= a < files.len() && 0 <= b < files.len() && a != b ==> files[a].path@ != files[b].path@
    &&& forall|a: int, i: int, b: int, j: int|
        0 <= a < files.len() && 0 <= b < files.len() && 0 <= i < files[a].symbols@.len() && 0 <= j
            < files[b].symbols@.len() && (a != b || i != j) ==> #[trigger] guid_at(files, a, i)
            != #[trigger] guid_at(files, b, j)
}

/// The guids of `symbols` are pairwise distinct.
pub open spec fn guids_distinct(symbols: Seq<SymbolInstance>) -> bool {
    forall|i: int, j: int|
        0 <= i < symbols.len() && 0 <= j < symbols.len() && i != j ==> symbols[i].guid
            != symbols[j].guid
}

/// Some symbol of a file other than `path` has guid `g`.
pub open spec fn guid_used_elsewhere(files: Seq<FileSymbols>, path: Seq<char>, g: u64) -> bool {
    exists|a: int, i: int|
        0 <= a < files.len() && files[a].path@ != path && 0 <= i < files[a].symbols@.len()
            && #[trigger] guid_at(files, a, i) == g
}

pub open spec fn files_has(files: Seq<FileSymbols>, p: Seq<char>) -> bool {
    exists|a: int| 0 <= a < files.len() && files[a].path@ == p
}

pub open spec fn files_symbols(files: Seq<FileSymbols>, p: Seq<char>) -> Seq<SymbolInstance> {
    if files_has(files, p) {
        let a = choose|a: int| 0 <= a < files.len() && files[a].path@ == p;
        files[a].symbols@
    } else {
        Seq::empty()
    }
}

/// Storing `entry` at position `a` (its file's own entry, or a new one at the
/// end) keeps the store well formed, and changes no other file.
proof fn lemma_replace_entry(f0: Seq<FileSymbols>, a: int, entry: FileSymbols, f1: Seq<FileSymbols>)
    requires
        files_wf(f0),
        0 <= a <= f0.len(),
        a < f0.len() ==> f0[a].path@ == entry.path@ && f1 == f0.update(a, entry),
        a == f0.len() ==> f1 == f0.push(entry),
        forall|b: int| 0 <= b < a ==> f0[b].path@ != entry.path@,
        guids_distinct(entry.symbols@),
        forall|i: int|
            0 <= i < entry.symbols@.len() ==> !guid_used_elsewhere(
                f0,
                entry.path@,
                #[trigger] entry.symbols@[i].guid,
            ),
    ensures
        files_wf(f1),
        files_has(f1, entry.path@),
        files_symbols(f1, entry.path@) == entry.symbols@,
        forall|q: Seq<char>|
            q != entry.path@ ==> files_has(f1, q) == files_has(f0, q) && files_symbols(f1, q)
                == files_symbols(f0, q),
{
    let p = entry.path@;
    assert(f1[a] == entry);
    assert forall|b: int| 0 <= b < f1.len() && b != a implies f1[b] == f0[b] && f0[b].path@ != p by {
        if a < f0.len() {
            assert(f0[a].path@ == p);
        }
    }
    assert forall|b: int, c: int|
        0 <= b < f1.len() && 0 <= c < f1.len() && b != c implies f1[b].path@ != f1[c].path@ by {
    }
    assert forall|b: int, i: int, c: int, j: int|
        0 <= b < f1.len() && 0 <= c < f1.len() && 0 <= i < f1[b].symbols@.len() && 0 <= j
            < f1[c].symbols@.len() && (b != c || i != j) implies #[trigger] guid_at(f1, b, i)
        != #[trigger] guid_at(f1, c, j) by {
        if b == a && c != a {
            assert(guid_at(f1, c, j) == guid_at(f0, c, j));
            assert(!guid_used_elsewhere(f0, p, entry.symbols@[i].guid));
        } else if b != a && c == a {
            assert(guid_at(f1, b, i) == guid_at(f0, b, i));
            assert(!guid_used_elsewhere(f0, p, entry.symbols@[j].guid));
        } else if b != a && c != a {
            assert(guid_at(f1, b, i) == guid_at(f0, b, i));
            assert(guid_at(f1, c, j) == guid_at(f0, c, j));
        }
    }
    assert(files_has(f1, p));
    let w = choose|w: int| 0 <= w < f1.len() && f1[w].path@ == p;
    assert(w == a);
    assert forall|q: Seq<char>| q != p implies files_has(f1, q) == files_has(f0, q) && files_symbols(f1, q)
        == files_symbols(f0, q) by {
        if files_has(f0, q) {
            let b = choose|b: int| 0 <= b < f0.len() && f0[b].path@ == q;
            if a < f0.len() {
                assert(b != a);
            }
            assert(f1[b].path@ == q);
            let c = choose|c: int| 0 <= c < f1.len() && f1[c].path@ == q;
            assert(c != a);
            assert(f0[c].path@ == q);
            assert(b == c);
        }
        if files_has(f1, q) {
            let c = choose|c: int| 0 <= c < f1.len() && f1[c].path@ == q;
            assert(c != a);
            assert(f0[c].path@ == q);
        }
    }
}

/// Why symbols were refused: a guid repeats, or belongs to another file.
pub open spec fn guid_clash_reason() -> Seq<char> {
    "guid clash"@
}

/// All symbols of the store, file by file.
pub open spec fn all_symbols(files: Seq<FileSymbols>) -> Seq<SymbolInstance>
    decreases files.len(),
{
    if files.len() == 0 {
        Seq::empty()
    } else {
        all_symbols(files.drop_last()) + files.last().symbols@
    }
}

impl AstIndex {
    pub closed spec fn spec_files(&self) -> Seq<FileSymbols> {
        self.files@
    }

    pub closed spec fn spec_dirty(&self) -> bool {
        self.dirty
    }

    pub closed spec fn spec_by_name(&self) -> Seq<NameEntry> {
        self.by_name@
    }

    pub open spec fn wf(&self) -> bool {
        files_wf(self.spec_files()) && names_distinct(self.spec_by_name())
    }

    pub open spec fn has_file(&self, p: Seq<char>) -> bool {
        files_has(self.spec_files(), p)
    }

    /// The symbols held for the file at `p` (none when the file is not indexed).
    pub open spec fn symbols_of(&self, p: Seq<char>) -> Seq<SymbolInstance> {
        files_symbols(self.spec_files(), p)
    }

    /// `symbols` may be stored for the file at `p`: their guids are distinct and
    /// none belongs to another file.
    pub open spec fn accepts(&self, p: Seq<char>, symbols: Seq<SymbolInstance>) -> bool {
        &&& guids_distinct(symbols)
        &&& forall|i: int|
            0 <= i < symbols.len() ==> !guid_used_elsewhere(self.spec_files(), p, #[trigger] symbols[i].guid)
    }

    pub fn new() -> (r: Self)
        ensures
            r.wf(),
            r.spec_files().len() == 0,
            r.spec_by_name().len() == 0,
            !r.spec_dirty(),
    {
        AstIndex { files: Vec::new(), by_name: Vec::new(), dirty: false }
    }

    /// Whether the store changed since the last resolution pass.
    pub fn need_update(&self) -> (r: bool)
        ensures
            r == self.spec_dirty(),
    {
        self.dirty
    }

    /// Records that a resolution pass has covered the current contents.
    pub fn set_updated(&mut self)
        ensures
            final(self).spec_files() == old(self).spec_files(),
            final(self).spec_by_name() == old(self).spec_by_name(),
            !final(self).spec_dirty(),
    {
        self.dirty = false;
    }

    /// Drops every symbol of the store at once.
    pub fn clear_index(&mut self)
        ensures
            final(self).wf(),
            final(self).spec_files().len() == 0,
            final(self).spec_by_name().len() == 0,
            final(self).spec_dirty(),
    {
        self.by_name.clear();
        self.files.clear();
        self.dirty = true;
    }

    /// Rebuilds the index of symbols by name from `symbols`.
    pub fn create_extra_indexes(&mut self, symbols: &Vec<SymbolInstance>)
        requires
            old(self).wf(),
        ensures
            final(self).wf(),
            final(self).spec_files() == old(self).spec_files(),
            final(self).spec_dirty() == old(self).spec_dirty(),
            forall|n: Seq<char>| guids_under(final(self).spec_by_name(), n) == guids_named(symbols@, n),
    {
        let mut entries: Vec<NameEntry> = Vec::new();
        let m = symbols.len();
        let mut i: usize = 0;
        while i < m
            invariant
                m == symbols@.len(),
                0 <= i <= m,
                names_distinct(entries@),
                forall|n: Seq<char>| guids_under(entries@, n) == guids_named(symbols@.take(i as int), n),
            decreases m - i,
        {
            add_under(&mut entries, &symbols[i].name, symbols[i].guid);
            assert(symbols@.take(i + 1).drop_last() =~= symbols@.take(i as int));
            i += 1;
        }
        assert(symbols@.take(m as int) =~= symbols@);
        self.by_name = entries;
    }

    /// The guids filed under `name` by the last resolution pass.
    pub fn guids_by_name(&self, name: &String) -> (r: Vec<u64>)
        requires
            self.wf(),
        ensures
            r@ == guids_under(self.spec_by_name(), name@),
    {
        let n = self.by_name.len();
        let mut i: usize = 0;
        while i < n
            invariant
                n == self.by_name@.len(),
                names_distinct(self.by_name@),
                0 <= i <= n,
                forall|k: int| 0 <= k < i ==> self.by_name@[k].name@ != name@,
            decreases n - i,
        {
            if self.by_name[i].name == *name {
                proof {
                    assert(has_name(self.by_name@, name@));
                    let c = choose|c: int| 0 <= c < self.by_name@.len() && self.by_name@[c].name@ == name@;
                    assert(c == i);
                }
                let mut r: Vec<u64> = Vec::new();
                let g = &self.by_name[i].guids;
                let mut j: usize = 0;
                while j < g.len()
                    invariant
                        0 <= j <= g@.len(),
                        r@ == g@.take(j as int),
                    decreases g@.len() - j,
                {
                    r.push(g[j]);
                    assert(g@.take(j + 1) =~= g@.take(j as int).push(g@[j as int]));
                    j += 1;
                }
                assert(g@.take(g@.len() as int) =~= g@);
                return r;
            }
            i += 1;
        }
        Vec::new()
    }

    /// A copy of every symbol of the store, file by file.
    pub fn symbols_snapshot(&self) -> (r: Vec<SymbolInstance>)
        ensures
            r@ == all_symbols(self.spec_files()),
    {
        let mut r: Vec<SymbolInstance> = Vec::new();
        let n = self.files.len();
        let mut a: usize = 0;
        while a < n
            invariant
                n == self.files@.len(),
                0 <= a <= n,
                r@ == all_symbols(self.files@.take(a as int)),
            decreases n - a,
        {
            let ghost r0 = r@;
            let m = self.files[a].symbols.len();
            let mut i: usize = 0;
            while i < m
                invariant
                    n == self.files@.len(),
                    0 <= a < n,
                    m == self.files@[a as int].symbols@.len(),
                    0 <= i <= m,
                    r@ == r0 + self.files@[a as int].symbols@.take(i as int),
                decreases m - i,
            {
                r.push(self.files[a].symbols[i].duplicate());
                assert(self.files@[a as int].symbols@.take(i + 1) =~= self.files@[a as int].symbols@.take(i as int).push(self.files@[a as int].symbols@[i as int]));
                assert(r@ =~= r0 + self.files@[a as int].symbols@.take(i + 1));
                i += 1;
            }
            assert(self.files@.take(a + 1).drop_last() =~= self.files@.take(a as int));
            assert(self.files@[a as int].symbols@.take(m as int) =~= self.files@[a as int].symbols@);
            a += 1;
        }
        assert(self.files@.take(n as int) =~= self.files@);
        r
    }

    /// Whether guid `g` belongs to a symbol of a file other than `path`.
    fn used_elsewhere(&self, path: &String, g: u64) -> (r: bool)
        ensures
            r == guid_used_elsewhere(self.spec_files(), path@, g),
    {
        let n = self.files.len();
        let mut a: usize = 0;
        while a < n
            invariant
                n == self.files@.len(),
                0 <= a <= n,
                forall|b: int, i: int|
                    0 <= b < a && self.files@[b].path@ != path@ && 0 <= i
                        < self.files@[b].symbols@.len() ==> #[trigger] guid_at(self.files@, b, i) != g,
            decreases n - a,
        {
            if !(self.files[a].path == *path) {
                let m = self.files[a].symbols.len();
                let mut i: usize = 0;
                while i < m
                    invariant
                        n == self.files@.len(),
                        0 <= a < n,
                        m == self.files@[a as int].symbols@.len(),
                        self.files@[a as int].path@ != path@,
                        0 <= i <= m,
                        forall|j: int| 0 <= j < i ==> #[trigger] guid_at(self.files@, a as int, j) != g,
                    decreases m - i,
                {
                    if self.files[a].symbols[i].guid == g {
                        assert(guid_at(self.files@, a as int, i as int) == g);
                        return true;
                    }
                    i += 1;
                }
            }
            a += 1;
        }
        false
    }

    /// Replaces the symbols of the file of `doc` by `symbols`, and marks the
    /// store changed when `make_dirty` holds. Fails, leaving the store as it
    /// was, when the guids of `symbols` repeat or belong to another file.
    pub fn add_or_update_symbols_index(
        &mut self,
        doc_path: &String,
        symbols: Vec<SymbolInstance>,
        make_dirty: bool,
    ) -> (r: Result<(), String>)
        requires
            old(self).wf(),
        ensures
            final(self).wf(),
            r is Ok <==> old(self).accepts(doc_path@, symbols@),
            r is Ok ==> {
                &&& final(self).has_file(doc_path@)
                &&& final(self).symbols_of(doc_path@) == symbols@
                &&& forall|q: Seq<char>|
                    q != doc_path@ ==> final(self).has_file(q) == old(self).has_file(q)
                        && final(self).symbols_of(q) == old(self).symbols_of(q)
                &&& final(self).spec_dirty() == (old(self).spec_dirty() || make_dirty)
            },
            r matches Err(e) ==> *final(self) == *old(self) && e@ == guid_clash_reason(),
    {
        let m = symbols.len();
        let mut i: usize = 0;
        while i < m
            invariant
                *self == *old(self),
                self.wf(),
                m == symbols@.len(),
                0 <= i <= m,
                forall|j: int, k: int|
                    0 <= j < i && 0 <= k < m && j != k ==> symbols@[j].guid != symbols@[k].guid,
                forall|j: int|
                    0 <= j < i ==> !guid_used_elsewhere(self.files@, doc_path@, #[trigger] symbols@[j].guid),
            decreases m - i,
        {
            let g = symbols[i].guid;
            if self.used_elsewhere(doc_path, g) {
                return Err("guid clash".to_owned());
            }
            let mut k: usize = 0;
            while k < m
                invariant
                    *self == *old(self),
                    self.wf(),
                    m == symbols@.len(),
                    0 <= i < m,
                    g == symbols@[i as int].guid,
                    0 <= k <= m,
                    forall|j: int| 0 <= j < k && j != i ==> symbols@[j].guid != g,
                decreases m - k,
            {
                if k != i && symbols[k].guid == g {
                    return Err("guid clash".to_owned());
                }
                k += 1;
            }
            i += 1;
        }
        let ghost f0 = self.files@;
        let n = self.files.len();
        let mut a: usize = 0;
        let mut found = false;
        while a < n && !found
            invariant
                self.files@ == f0,
                *self == *old(self),
                n == f0.len(),
                0 <= a <= n,
                found ==> a < n && f0[a as int].path@ == doc_path@,
                forall|b: int| 0 <= b < a ==> f0[b].path@ != doc_path@,
            decreases n - a + (if found { 0int } else { 1int }),
        {
            if self.files[a].path == *doc_path {
                found = true;
            } else {
                a += 1;
            }
        }
        let entry = FileSymbols { path: doc_path.clone(), symbols };
        let ghost ge = entry;
        if found {
            self.files.set(a, entry);
        } else {
            self.files.push(entry);
        }
        proof {
            lemma_replace_entry(f0, a as int, ge, self.files@);
        }
        if make_dirty {
            self.dirty = true;
        }
        Ok(())
    }
}

} // verus!
