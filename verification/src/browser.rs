//! Registry of browser tabs: the mapping from tab identifier to
//! webview label and the currently active tab, plus the filter that
//! decides which reported locations are worth surfacing.

use vstd::prelude::*;

use crate::chars::{starts_with, starts_with_chars, str_to_chars};

verus! {

/// Association list over character-sequence keys: the label under `k`.
pub open spec fn assoc_lookup(t: Seq<(Seq<char>, Seq<char>)>, k: Seq<char>) -> Option<Seq<char>>
    decreases t.len(),
{
    if t.len() == 0 {
        None
    } else if t[0].0 == k {
        Some(t[0].1)
    } else {
        assoc_lookup(t.skip(1), k)
    }
}

/// Keys of the association list, in order.
pub open spec fn assoc_keys(t: Seq<(Seq<char>, Seq<char>)>) -> Seq<Seq<char>> {
    t.map_values(|p: (Seq<char>, Seq<char>)| p.0)
}

/// Keys are pairwise distinct.
pub open spec fn assoc_wf(t: Seq<(Seq<char>, Seq<char>)>) -> bool {
    forall|i: int, j: int| 0 <= i < j < t.len() ==> t[i].0 != t[j].0
}

/// State of the browser panel: which tabs have webviews, and which tab
/// is active.
pub struct BrowserState {
    webviews: Vec<(String, String)>,
    active_tab: Option<String>,
}

impl BrowserState {
    /// The tab-to-label table.
    pub closed spec fn tabs(&self) -> Seq<(Seq<char>, Seq<char>)> {
        self.webviews@.map_values(|p: (String, String)| (p.0@, p.1@))
    }

    /// The active tab, if any.
    pub closed spec fn active(&self) -> Option<Seq<char>> {
        match self.active_tab {
            Some(ref t) => Some(t@),
            None => None,
        }
    }

    pub open spec fn wf(&self) -> bool {
        assoc_wf(self.tabs())
    }

    /// An empty panel: no webviews, no active tab.
    pub fn new() -> (r: Self)
        ensures
            r.tabs().len() == 0,
            r.active() is None,
            r.wf(),
    {
        let r = BrowserState { webviews: Vec::new(), active_tab: None };
        proof {
            assert(r.tabs() =~= Seq::<(Seq<char>, Seq<char>)>::empty());
        }
        r
    }

    fn index_of(&self, tab_id: &String) -> (r: Option<usize>)
        requires
            self.wf(),
        ensures
            match r {
                Some(i) => i < self.tabs().len() && self.tabs()[i as int].0 == tab_id@
                    && assoc_lookup(self.tabs(), tab_id@) == Some(self.tabs()[i as int].1),
                None => assoc_lookup(self.tabs(), tab_id@) is None,
            },
    {
        proof {
            lemma_assoc_lookup(self.tabs(), tab_id@);
        }
        let n = self.webviews.len();
        let mut i: usize = 0;
        while i < n
            invariant
                i <= n,
                n == self.tabs().len(),
                forall|j: int| 0 <= j < i ==> self.tabs()[j].0 != tab_id@,
            decreases n - i,
        {
            if tab_id.eq(&self.webviews[i].0) {
                proof {
                    assert(self.tabs()[i as int] == (
                        self.webviews@[i as int].0@,
                        self.webviews@[i as int].1@,
                    ));
                    lemma_assoc_lookup(self.tabs(), tab_id@);
                }
                return Some(i);
            }
            proof {
                assert(self.tabs()[i as int] == (
                    self.webviews@[i as int].0@,
                    self.webviews@[i as int].1@,
                ));
            }
            i = i + 1;
        }
        proof {
            lemma_assoc_lookup(self.tabs(), tab_id@);
        }
        None
    }

    /// Record a webview label for a tab and make that tab active.  A
    /// label already recorded for the same tab is replaced in place.
    pub fn insert_tab(&mut self, tab_id: String, label: String)
        requires
            old(self).wf(),
        ensures
            final(self).wf(),
            assoc_lookup(final(self).tabs(), tab_id@) == Some(label@),
            final(self).active() == Some(tab_id@),
            forall|k: Seq<char>|
                k != tab_id@ ==> #[trigger] assoc_lookup(final(self).tabs(), k) == assoc_lookup(
                    old(self).tabs(),
                    k,
                ),
    {
        let ghost t0 = self.tabs();
        match self.index_of(&tab_id) {
            Some(i) => {
                let prev = self.webviews.remove(i);
                self.webviews.insert(i, (prev.0, label));
                proof {
                    assert(self.tabs() =~= t0.update(
                        i as int,
                        (t0[i as int].0, label@),
                    ));
                    lemma_assoc_update(t0, i as int, label@);
                }
            },
            None => {
                self.webviews.push((tab_id.clone(), label));
                proof {
                    assert(self.tabs() =~= t0.push((tab_id@, label@)));
                    lemma_assoc_push(t0, tab_id@, label@);
                }
            },
        }
        self.active_tab = Some(tab_id);
    }

    /// Forget a tab's webview; clears the active tab if it was this
    /// one.  Reports whether the tab was present.
    pub fn remove_tab(&mut self, tab_id: &String) -> (found: bool)
        requires
            old(self).wf(),
        ensures
            final(self).wf(),
            found == (assoc_lookup(old(self).tabs(), tab_id@) is Some),
            assoc_lookup(final(self).tabs(), tab_id@) is None,
            forall|k: Seq<char>|
                k != tab_id@ ==> #[trigger] assoc_lookup(final(self).tabs(), k) == assoc_lookup(
                    old(self).tabs(),
                    k,
                ),
            (found && old(self).active() == Some(tab_id@)) ==> final(self).active() is None,
            !(found && old(self).active() == Some(tab_id@)) ==> final(self).active() == old(
                self,
            ).active(),
    {
        let ghost t0 = self.tabs();
        match self.index_of(tab_id) {
            Some(i) => {
                let _ = self.webviews.remove(i);
                proof {
                    assert(self.tabs() =~= t0.remove(i as int));
                    lemma_assoc_remove(t0, i as int);
                }
                let clear = match &self.active_tab {
                    Some(a) => tab_id.eq(a),
                    None => false,
                };
                if clear {
                    self.active_tab = None;
                }
                true
            },
            None => false,
        }
    }

    /// Drop every webview and the active tab.
    pub fn clear_tabs(&mut self)
        ensures
            final(self).tabs().len() == 0,
            final(self).active() is None,
            final(self).wf(),
    {
        self.webviews = Vec::new();
        self.active_tab = None;
        proof {
            assert(self.tabs() =~= Seq::<(Seq<char>, Seq<char>)>::empty());
        }
    }

    /// The webview label recorded for a tab.
    pub fn get_label(&self, tab_id: &String) -> (r: Option<String>)
        requires
            self.wf(),
        ensures
            match r {
                Some(l) => assoc_lookup(self.tabs(), tab_id@) == Some(l@),
                None => assoc_lookup(self.tabs(), tab_id@) is None,
            },
    {
        match self.index_of(tab_id) {
            Some(i) => Some(self.webviews[i].1.clone()),
            None => None,
        }
    }

    /// Whether a webview exists for the tab.
    pub fn contains_tab(&self, tab_id: &String) -> (r: bool)
        requires
            self.wf(),
        ensures
            r == (assoc_lookup(self.tabs(), tab_id@) is Some),
    {
        match self.index_of(tab_id) {
            Some(_) => true,
            None => false,
        }
    }

    /// All tab identifiers with webviews, in insertion order.
    pub fn tab_ids(&self) -> (r: Vec<String>)
        ensures
            r@.map_values(|s: String| s@) == assoc_keys(self.tabs()),
    {
        let n = self.webviews.len();
        let mut r: Vec<String> = Vec::new();
        let mut i: usize = 0;
        proof {
            assert(r@.map_values(|s: String| s@) =~= assoc_keys(self.tabs()).take(0));
        }
        while i < n
            invariant
                i <= n,
                n == self.webviews@.len(),
                r@.map_values(|s: String| s@) == assoc_keys(self.tabs()).take(i as int),
            decreases n - i,
        {
            let id = self.webviews[i].0.clone();
            proof {
                assert(self.tabs()[i as int] == (
                    self.webviews@[i as int].0@,
                    self.webviews@[i as int].1@,
                ));
                assert(r@.push(id).map_values(|s: String| s@) =~= r@.map_values(
                    |s: String| s@,
                ).push(id@));
                assert(assoc_keys(self.tabs()).take(i + 1) =~= assoc_keys(self.tabs()).take(
                    i as int,
                ).push(assoc_keys(self.tabs())[i as int]));
            }
            r.push(id);
            i = i + 1;
        }
        proof {
            assert(assoc_keys(self.tabs()).take(n as int) =~= assoc_keys(self.tabs()));
        }
        r
    }

    /// Make a tab active (when its webview is shown).
    pub fn set_active(&mut self, tab_id: String)
        requires
            old(self).wf(),
        ensures
            final(self).wf(),
            final(self).active() == Some(tab_id@),
            final(self).tabs() == old(self).tabs(),
    {
        self.active_tab = Some(tab_id);
    }
}

proof fn lemma_assoc_lookup(t: Seq<(Seq<char>, Seq<char>)>, k: Seq<char>)
    ensures
        (assoc_lookup(t, k) is Some) == (exists|i: int| 0 <= i < t.len() && t[i].0 == k),
        (forall|i: int| 0 <= i < t.len() ==> t[i].0 != k) ==> assoc_lookup(t, k) is None,
        forall|i: int|
            0 <= i < t.len() && t[i].0 == k && (forall|j: int| 0 <= j < i ==> t[j].0 != k)
                ==> assoc_lookup(t, k) == Some(t[i].1),
    decreases t.len(),
{
    if t.len() > 0 {
        lemma_assoc_lookup(t.skip(1), k);
        assert(forall|i: int| 1 <= i < t.len() ==> t[i] == t.skip(1)[i - 1]);
        if t[0].0 == k {
        } else {
            assert forall|i: int|
                0 <= i < t.len() && t[i].0 == k && (forall|j: int| 0 <= j < i ==> t[j].0 != k)
                    implies assoc_lookup(t, k) == Some(t[i].1) by {
                assert(t.skip(1)[i - 1].0 == k);
                assert(forall|j: int| 0 <= j < i - 1 ==> t.skip(1)[j].0 != k);
            }
        }
    }
}

proof fn lemma_assoc_update(t: Seq<(Seq<char>, Seq<char>)>, i: int, v: Seq<char>)
    requires
        assoc_wf(t),
        0 <= i < t.len(),
    ensures
        assoc_wf(t.update(i, (t[i].0, v))),
        assoc_lookup(t.update(i, (t[i].0, v)), t[i].0) == Some(v),
        forall|k: Seq<char>|
            k != t[i].0 ==> #[trigger] assoc_lookup(t.update(i, (t[i].0, v)), k) == assoc_lookup(
                t,
                k,
            ),
    decreases t.len(),
{
    let t2 = t.update(i, (t[i].0, v));
    if i == 0 {
        assert(t2[0].0 == t[0].0);
        assert(t2.skip(1) =~= t.skip(1));
    } else {
        assert(t2[0] == t[0]);
        assert(t2.skip(1) =~= t.skip(1).update(i - 1, (t.skip(1)[i - 1].0, v)));
        lemma_assoc_update(t.skip(1), i - 1, v);
    }
    assert forall|k: Seq<char>| k != t[i].0 implies #[trigger] assoc_lookup(t2, k)
        == assoc_lookup(t, k) by {
        lemma_assoc_lookup_update_other(t, i, v, k);
    }
}

proof fn lemma_assoc_lookup_update_other(
    t: Seq<(Seq<char>, Seq<char>)>,
    i: int,
    v: Seq<char>,
    k: Seq<char>,
)
    requires
        0 <= i < t.len(),
        k != t[i].0,
    ensures
        assoc_lookup(t.update(i, (t[i].0, v)), k) == assoc_lookup(t, k),
    decreases t.len(),
{
    let t2 = t.update(i, (t[i].0, v));
    if i == 0 {
        assert(t2[0].0 == t[0].0);
        assert(t2.skip(1) =~= t.skip(1));
    } else {
        assert(t2[0] == t[0]);
        if t[0].0 == k {
        } else {
            assert(t2.skip(1) =~= t.skip(1).update(i - 1, (t.skip(1)[i - 1].0, v)));
            lemma_assoc_lookup_update_other(t.skip(1), i - 1, v, k);
        }
    }
}

proof fn lemma_assoc_push(t: Seq<(Seq<char>, Seq<char>)>, k: Seq<char>, v: Seq<char>)
    requires
        assoc_wf(t),
        assoc_lookup(t, k) is None,
    ensures
        assoc_wf(t.push((k, v))),
        assoc_lookup(t.push((k, v)), k) == Some(v),
        forall|k2: Seq<char>|
            k2 != k ==> #[trigger] assoc_lookup(t.push((k, v)), k2) == assoc_lookup(t, k2),
    decreases t.len(),
{
    lemma_assoc_lookup(t, k);
    let t2 = t.push((k, v));
    assert forall|i: int, j: int| 0 <= i < j < t2.len() implies t2[i].0 != t2[j].0 by {
        if j < t.len() {
            assert(t2[i] == t[i] && t2[j] == t[j]);
        } else {
            assert(t2[i] == t[i] && t2[j] == (k, v));
        }
    }
    if t.len() == 0 {
        assert(t2.skip(1) =~= Seq::<(Seq<char>, Seq<char>)>::empty());
    } else {
        assert(t2[0] == t[0]);
        assert(t2.skip(1) =~= t.skip(1).push((k, v)));
        lemma_assoc_push(t.skip(1), k, v);
    }
    assert forall|k2: Seq<char>| k2 != k implies #[trigger] assoc_lookup(t2, k2) == assoc_lookup(
        t,
        k2,
    ) by {
        lemma_assoc_lookup_push_other(t, k, v, k2);
    }
}

proof fn lemma_assoc_lookup_push_other(
    t: Seq<(Seq<char>, Seq<char>)>,
    k: Seq<char>,
    v: Seq<char>,
    k2: Seq<char>,
)
    requires
        k2 != k,
    ensures
        assoc_lookup(t.push((k, v)), k2) == assoc_lookup(t, k2),
    decreases t.len(),
{
    reveal_with_fuel(assoc_lookup, 3);
    let t2 = t.push((k, v));
    if t.len() == 0 {
        assert(t2.len() == 1);
        assert(t2[0].0 == k);
        assert(t2.skip(1) =~= Seq::<(Seq<char>, Seq<char>)>::empty());
        assert(assoc_lookup(t2.skip(1), k2) is None);
        assert(assoc_lookup(t2, k2) is None);
    } else {
        assert(t2[0] == t[0]);
        if t[0].0 == k2 {
        } else {
            assert(t2.skip(1) =~= t.skip(1).push((k, v)));
            lemma_assoc_lookup_push_other(t.skip(1), k, v, k2);
        }
    }
}

proof fn lemma_assoc_remove(t: Seq<(Seq<char>, Seq<char>)>, i: int)
    requires
        assoc_wf(t),
        0 <= i < t.len(),
    ensures
        assoc_wf(t.remove(i)),
        assoc_lookup(t.remove(i), t[i].0) is None,
        forall|k: Seq<char>|
            k != t[i].0 ==> #[trigger] assoc_lookup(t.remove(i), k) == assoc_lookup(t, k),
    decreases t.len(),
{
    let t2 = t.remove(i);
    assert forall|a: int, b: int| 0 <= a < b < t2.len() implies t2[a].0 != t2[b].0 by {
        let a1 = if a < i {
            a
        } else {
            a + 1
        };
        let b1 = if b < i {
            b
        } else {
            b + 1
        };
        assert(t2[a] == t[a1] && t2[b] == t[b1]);
    }
    lemma_assoc_lookup(t, t[i].0);
    lemma_assoc_lookup(t2, t[i].0);
    assert forall|j: int| 0 <= j < t2.len() implies t2[j].0 != t[i].0 by {
        let j1 = if j < i {
            j
        } else {
            j + 1
        };
        assert(t2[j] == t[j1]);
    }
    assert forall|k: Seq<char>| k != t[i].0 implies #[trigger] assoc_lookup(t2, k)
        == assoc_lookup(t, k) by {
        lemma_assoc_lookup_remove_other(t, i, k);
    }
}

proof fn lemma_assoc_lookup_remove_other(t: Seq<(Seq<char>, Seq<char>)>, i: int, k: Seq<char>)
    requires
        assoc_wf(t),
        0 <= i < t.len(),
        k != t[i].0,
    ensures
        assoc_lookup(t.remove(i), k) == assoc_lookup(t, k),
    decreases t.len(),
{
    let t2 = t.remove(i);
    if i == 0 {
        assert(t2 =~= t.skip(1));
    } else {
        assert(t2[0] == t[0]);
        if t[0].0 == k {
        } else {
            assert(t2.skip(1) =~= t.skip(1).remove(i - 1));
            lemma_assoc_lookup_remove_other(t.skip(1), i - 1, k);
        }
    }
}

/// Whether a reported location should be surfaced: internal and
/// transient locations are filtered out.
pub open spec fn should_report_url_s(url: Seq<char>) -> bool {
    &&& url.len() > 0
    &&& !starts_with(url, "about:"@)
    &&& !starts_with(url, "blob:"@)
    &&& !starts_with(url, "data:"@)
}

/// Decide whether a reported location should be surfaced.
pub fn should_report_url(url: &String) -> (r: bool)
    ensures
        r == should_report_url_s(url@),
{
    let cs = str_to_chars(url.as_str());
    if cs.len() == 0 {
        return false;
    }
    proof {
        reveal_strlit("about:");
        reveal_strlit("blob:");
        reveal_strlit("data:");
    }
    !(starts_with_chars(&cs, &str_to_chars("about:")) || starts_with_chars(
        &cs,
        &str_to_chars("blob:"),
    ) || starts_with_chars(&cs, &str_to_chars("data:")))
}

} // verus!
