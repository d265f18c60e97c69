//! The names completion offers from the workspace: mapping keys, `let` bindings and aliases,
//! each set kept sorted with every name once.
use vstd::prelude::*;

use crate::formatting::crlf_to_lf;
use crate::lexer::lexes;
use crate::parser::fallback::parse_file_spec;
use crate::parser::parse_fallback;
use crate::semantic::{defs_view, file_defs, SemanticDocument};
use crate::symbols::{DefV, Definition, DefinitionKind};
use crate::syntax::{FileId, ParsedFile};
use crate::text::utf8;
use crate::workspace::{insert_sorted, lemma_text_lt_total, lemma_text_lt_trans, strictly_sorted, text_lt, texts_view};

verus! {

/// Two strictly increasing lists of the same texts are the same list.
pub proof fn lemma_sorted_unique(a: Seq<Seq<u8>>, b: Seq<Seq<u8>>)
    requires
        strictly_sorted(a),
        strictly_sorted(b),
        a.to_set() == b.to_set(),
    ensures
        a == b,
    decreases a.len(),
{
    if a.len() == 0 {
        if b.len() > 0 {
            assert(b.to_set().contains(b[0]));
        }
        assert(a =~= b);
    } else {
        assert(a.to_set().contains(a[0]));
        assert(b.len() > 0);
        assert(b.to_set().contains(b[0]));
        let j = choose|j: int| 0 <= j < b.len() && b[j] == a[0];
        let i = choose|i: int| 0 <= i < a.len() && a[i] == b[0];
        lemma_text_lt_total(a[0], a[0]);
        if j > 0 {
            if i > 0 {
                assert(text_lt(a[0], a[i]));
                assert(text_lt(b[0], b[j]));
                lemma_text_lt_total(a[0], b[0]);
            }
        }
        assert(a[0] == b[0]) by {
            if j > 0 {
                assert(text_lt(b[0], b[j]));
                if i > 0 {
                    assert(text_lt(a[0], a[i]));
                    lemma_text_lt_total(a[0], b[0]);
                } else {
                    lemma_text_lt_total(b[0], b[0]);
                }
            }
        }
        let ra = a.drop_first();
        let rb = b.drop_first();
        assert forall|x: Seq<u8>| ra.to_set().contains(x) <==> rb.to_set().contains(x) by {
            if ra.to_set().contains(x) {
                let k = choose|k: int| 0 <= k < ra.len() && ra[k] == x;
                assert(a[k + 1] == x);
                assert(a.to_set().contains(x));
                let m = choose|m: int| 0 <= m < b.len() && b[m] == x;
                assert(text_lt(a[0], a[k + 1]));
                if m == 0 {
                    lemma_text_lt_total(a[0], a[0]);
                }
                assert(rb[m - 1] == x);
            }
            if rb.to_set().contains(x) {
                let k = choose|k: int| 0 <= k < rb.len() && rb[k] == x;
                assert(b[k + 1] == x);
                assert(b.to_set().contains(x));
                let m = choose|m: int| 0 <= m < a.len() && a[m] == x;
                assert(text_lt(b[0], b[k + 1]));
                if m == 0 {
                    lemma_text_lt_total(b[0], b[0]);
                }
                assert(ra[m - 1] == x);
            }
        }
        assert(ra.to_set() =~= rb.to_set());
        assert forall|p: int, q: int| 0 <= p < q < ra.len() implies text_lt(#[trigger] ra[p], #[trigger] ra[q]) by {
            assert(ra[p] == a[p + 1] && ra[q] == a[q + 1]);
        }
        assert forall|p: int, q: int| 0 <= p < q < rb.len() implies text_lt(#[trigger] rb[p], #[trigger] rb[q]) by {
            assert(rb[p] == b[p + 1] && rb[q] == b[q + 1]);
        }
        lemma_sorted_unique(ra, rb);
        assert(a =~= seq![a[0]] + ra);
        assert(b =~= seq![b[0]] + rb);
    }
}

/// The strictly increasing list of the texts of a finite set.
pub open spec fn sorted_of(x: Set<Seq<u8>>) -> Seq<Seq<u8>> {
    choose|s: Seq<Seq<u8>>| strictly_sorted(s) && s.to_set() == x
}

pub proof fn lemma_sorted_of(s: Seq<Seq<u8>>)
    requires
        strictly_sorted(s),
    ensures
        sorted_of(s.to_set()) == s,
{
    let t = sorted_of(s.to_set());
    assert(strictly_sorted(t) && t.to_set() == s.to_set());
    lemma_sorted_unique(t, s);
}

/// The names of the definitions of a kind.
pub open spec fn kind_names(defs: Seq<DefV>, kind: DefinitionKind) -> Set<Seq<u8>> {
    Set::new(|n: Seq<u8>| exists|i: int| 0 <= i < defs.len() && defs[i].kind == kind && #[trigger] defs[i].name == n)
}

/// The definitions that a text's parse gives.
pub open spec fn text_defs(file_id: FileId, b: Seq<u8>) -> Seq<DefV> {
    let docs = parse_file_spec(file_id, crlf_to_lf(b, 0)).0;
    file_defs(docs, docs.len() as int)
}

/// The keys, `let` names and aliases that completion offers.
#[derive(Debug)]
pub struct CompletionCorpus {
    keys: Vec<String>,
    lets: Vec<String>,
    aliases: Vec<String>,
}

impl CompletionCorpus {
    pub closed spec fn keys(&self) -> Seq<Seq<u8>> {
        texts_view(self.keys@)
    }

    pub closed spec fn lets(&self) -> Seq<Seq<u8>> {
        texts_view(self.lets@)
    }

    pub closed spec fn aliases(&self) -> Seq<Seq<u8>> {
        texts_view(self.aliases@)
    }

    /// Each list strictly increasing.
    pub open spec fn wf(&self) -> bool {
        &&& strictly_sorted(self.keys())
        &&& strictly_sorted(self.lets())
        &&& strictly_sorted(self.aliases())
    }

    pub fn new() -> (c: Self)
        ensures
            c.wf(),
            c.keys() == Seq::<Seq<u8>>::empty(),
            c.lets() == Seq::<Seq<u8>>::empty(),
            c.aliases() == Seq::<Seq<u8>>::empty(),
    {
        let c = CompletionCorpus { keys: Vec::new(), lets: Vec::new(), aliases: Vec::new() };
        assert(c.keys() =~= Seq::<Seq<u8>>::empty());
        assert(c.lets() =~= Seq::<Seq<u8>>::empty());
        assert(c.aliases() =~= Seq::<Seq<u8>>::empty());
        c
    }

    pub fn keys_list(&self) -> (r: &Vec<String>)
        ensures
            texts_view(r@) == self.keys(),
    {
        &self.keys
    }

    pub fn lets_list(&self) -> (r: &Vec<String>)
        ensures
            texts_view(r@) == self.lets(),
    {
        &self.lets
    }

    pub fn aliases_list(&self) -> (r: &Vec<String>)
        ensures
            texts_view(r@) == self.aliases(),
    {
        &self.aliases
    }

    /// Adds the names of the key, `let` and alias definitions.
    pub fn ingest_definitions(&mut self, defs: &Vec<Definition>)
        requires
            old(self).wf(),
        ensures
            final(self).wf(),
            final(self).keys().to_set() == old(self).keys().to_set() + kind_names(defs_view(defs@), DefinitionKind::Key),
            final(self).lets().to_set() == old(self).lets().to_set() + kind_names(defs_view(defs@), DefinitionKind::Let),
            final(self).aliases().to_set() == old(self).aliases().to_set() + kind_names(
                defs_view(defs@),
                DefinitionKind::Alias,
            ),
    {
        let ghost dv = defs_view(defs@);
        let ghost k0 = self.keys().to_set();
        let ghost l0 = self.lets().to_set();
        let ghost a0 = self.aliases().to_set();
        let mut i: usize = 0;
        assert(kind_names(dv.take(0), DefinitionKind::Key) =~= Set::<Seq<u8>>::empty());
        assert(kind_names(dv.take(0), DefinitionKind::Let) =~= Set::<Seq<u8>>::empty());
        assert(kind_names(dv.take(0), DefinitionKind::Alias) =~= Set::<Seq<u8>>::empty());
        assert(k0 + Set::<Seq<u8>>::empty() =~= k0);
        assert(l0 + Set::<Seq<u8>>::empty() =~= l0);
        assert(a0 + Set::<Seq<u8>>::empty() =~= a0);
        while i < defs.len()
            invariant
                i <= defs@.len(),
                dv == defs_view(defs@),
                self.wf(),
                self.keys().to_set() == k0 + kind_names(dv.take(i as int), DefinitionKind::Key),
                self.lets().to_set() == l0 + kind_names(dv.take(i as int), DefinitionKind::Let),
                self.aliases().to_set() == a0 + kind_names(dv.take(i as int), DefinitionKind::Alias),
            decreases defs@.len() - i,
        {
            let d = &defs[i];
            let ghost t = dv.take(i + 1);
            assert(dv[i as int] == d.view_def());
            proof {
                assert forall|kind: DefinitionKind| #[trigger] kind_names(t, kind) == (if d.kind == kind {
                    kind_names(dv.take(i as int), kind).insert(utf8(d.name@))
                } else {
                    kind_names(dv.take(i as int), kind)
                }) by {
                    let lhs = kind_names(t, kind);
                    let rhs = if d.kind == kind {
                        kind_names(dv.take(i as int), kind).insert(utf8(d.name@))
                    } else {
                        kind_names(dv.take(i as int), kind)
                    };
                    assert forall|n: Seq<u8>| lhs.contains(n) <==> rhs.contains(n) by {
                        if lhs.contains(n) {
                            let m = choose|m: int| 0 <= m < t.len() && t[m].kind == kind && #[trigger] t[m].name == n;
                            if m < i {
                                assert(dv.take(i as int)[m] == t[m]);
                            }
                        }
                        if kind_names(dv.take(i as int), kind).contains(n) {
                            let m = choose|m: int| 0 <= m < i && dv.take(i as int)[m].kind == kind
                                && #[trigger] dv.take(i as int)[m].name == n;
                            assert(t[m] == dv.take(i as int)[m]);
                        }
                        if d.kind == kind && n == utf8(d.name@) {
                            assert(t[i as int].name == n);
                        }
                    }
                    assert(lhs =~= rhs);
                }
            }
            match d.kind {
                DefinitionKind::Key => {
                    let ghost before = self.keys().to_set();
                    insert_sorted(&mut self.keys, d.name.clone());
                    assert(self.keys().to_set() =~= k0 + kind_names(t, DefinitionKind::Key));
                    assert(self.lets().to_set() =~= l0 + kind_names(t, DefinitionKind::Let));
                    assert(self.aliases().to_set() =~= a0 + kind_names(t, DefinitionKind::Alias));
                },
                DefinitionKind::Let => {
                    insert_sorted(&mut self.lets, d.name.clone());
                    assert(self.keys().to_set() =~= k0 + kind_names(t, DefinitionKind::Key));
                    assert(self.lets().to_set() =~= l0 + kind_names(t, DefinitionKind::Let));
                    assert(self.aliases().to_set() =~= a0 + kind_names(t, DefinitionKind::Alias));
                },
                DefinitionKind::Alias => {
                    insert_sorted(&mut self.aliases, d.name.clone());
                    assert(self.keys().to_set() =~= k0 + kind_names(t, DefinitionKind::Key));
                    assert(self.lets().to_set() =~= l0 + kind_names(t, DefinitionKind::Let));
                    assert(self.aliases().to_set() =~= a0 + kind_names(t, DefinitionKind::Alias));
                },
                _ => {
                    assert(self.keys().to_set() =~= k0 + kind_names(t, DefinitionKind::Key));
                    assert(self.lets().to_set() =~= l0 + kind_names(t, DefinitionKind::Let));
                    assert(self.aliases().to_set() =~= a0 + kind_names(t, DefinitionKind::Alias));
                },
            }
            i = i + 1;
        }
        assert(dv.take(defs@.len() as int) =~= dv);
    }

    /// Adds the names that a text's definitions give.
    pub fn ingest_text(&mut self, name: &str, text: &str, file_id: FileId)
        requires
            old(self).wf(),
            lexes(crlf_to_lf(utf8(text@), 0)),
            crlf_to_lf(utf8(text@), 0).len() <= isize::MAX,
        ensures
            final(self).wf(),
            final(self).keys().to_set() == old(self).keys().to_set() + kind_names(
                text_defs(file_id, utf8(text@)),
                DefinitionKind::Key,
            ),
            final(self).lets().to_set() == old(self).lets().to_set() + kind_names(
                text_defs(file_id, utf8(text@)),
                DefinitionKind::Let,
            ),
            final(self).aliases().to_set() == old(self).aliases().to_set() + kind_names(
                text_defs(file_id, utf8(text@)),
                DefinitionKind::Alias,
            ),
    {
        let parsed = parse_fallback(file_id, name, text);
        let file = match &parsed.file {
            ParsedFile::Fallback(f) => f,
        };
        let semantic = SemanticDocument::from_ast(&file.ast);
        self.ingest_definitions(&semantic.definitions);
    }
}

} // verus!
