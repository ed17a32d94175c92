//! The registry of working copies: lookups by name and by path, and
//! removal. Loading and saving the configuration file happens outside the
//! library; this holds the loaded state and answers questions about it.

use vstd::prelude::*;

use crate::config::{reg_item_like, reg_model, reg_models, Config, RegItem};
use crate::strutil::{contains_sub, lower_of, str_contains, str_eq, to_lower};

verus! {

/// The loaded configuration together with the place it came from.
pub struct AppContext {
    pub config: Config,
    pub config_path: String,
}

/// Whether an item answers to `lname` (a name already lowercased):
/// one of its names, lowercased, is exactly `lname`.
pub open spec fn answers_to(it: RegItem, lname: Seq<char>) -> bool {
    exists|j: int| 0 <= j < it.names@.len() && lower_of(#[trigger] it.names@[j]@) == lname
}

/// Whether an item's names mention `lsub` (already lowercased) as a part.
pub open spec fn name_mentions(it: RegItem, lsub: Seq<char>) -> bool {
    exists|j: int| 0 <= j < it.names@.len() && contains_sub(lower_of(#[trigger] it.names@[j]@), lsub)
}

/// The index of the first item that answers to `lname`, if any.
pub open spec fn first_answering(items: Seq<RegItem>, lname: Seq<char>, i: int) -> Option<int>
    decreases items.len() - i,
{
    if i < 0 || i >= items.len() {
        None
    } else if answers_to(items[i], lname) {
        Some(i)
    } else {
        first_answering(items, lname, i + 1)
    }
}

/// The index of the first item registered at `path`, if any.
pub open spec fn first_at_path(items: Seq<RegItem>, path: Seq<char>, i: int) -> Option<int>
    decreases items.len() - i,
{
    if i < 0 || i >= items.len() {
        None
    } else if items[i].path@ == path {
        Some(i)
    } else {
        first_at_path(items, path, i + 1)
    }
}

/// The command line that opens `target` in the configured editor.
pub fn editor_command(edit_app: &str, target: &str) -> (r: String)
    ensures
        r@ == edit_app@ + seq![' '] + target@,
{
    let mut r = String::from_str(edit_app);
    r.append(" ");
    r.append(target);
    proof {
        reveal_strlit(" ");
        assert(r@ =~= edit_app@ + seq![' '] + target@);
    }
    r
}

/// The items whose names mention `lsub` (already lowercased), in order,
/// as data values.
pub open spec fn mentioned_models(items: Seq<RegItem>, lsub: Seq<char>) -> Seq<
    (Seq<String>, String, Seq<String>, bool),
>
    decreases items.len(),
{
    if items.len() == 0 {
        Seq::empty()
    } else {
        mentioned_models(items.drop_last(), lsub) + (if name_mentions(items.last(), lsub) {
            seq![reg_model(items.last())]
        } else {
            Seq::<(Seq<String>, String, Seq<String>, bool)>::empty()
        })
    }
}

impl AppContext {
    /// Finds the registered item one of whose names, compared without
    /// regard to case, is `target`; the first match wins. Fails exactly
    /// when no item answers to the name.
    pub fn reg_find_by_name(&self, target: &str) -> (r: Result<RegItem, String>)
        ensures
            match r {
                Ok(it) => {
                    &&& first_answering(self.config.path@, lower_of(target@), 0) is Some
                    &&& reg_item_like(
                        self.config.path@[first_answering(
                            self.config.path@,
                            lower_of(target@),
                            0,
                        )->Some_0],
                        it,
                    )
                },
                Err(msg) => {
                    &&& first_answering(self.config.path@, lower_of(target@), 0) is None
                    &&& msg@ == "No that target["@ + target@ + "]"@
                },
            },
    {
        let ghost items = self.config.path@;
        let lt = to_lower(target);
        let mut i: usize = 0;
        while i < self.config.path.len()
            invariant
                items == self.config.path@,
                lt@ == lower_of(target@),
                i <= items.len(),
                first_answering(items, lt@, 0) == first_answering(items, lt@, i as int),
            decreases items.len() - i,
        {
            let it = &self.config.path[i];
            let mut j: usize = 0;
            let mut matched: bool = false;
            while j < it.names.len()
                invariant
                    items == self.config.path@,
                    lt@ == lower_of(target@),
                    i < items.len(),
                    it == &self.config.path[i as int],
                    j <= it.names@.len(),
                    matched ==> answers_to(items[i as int], lt@),
                    !matched ==> forall|k: int|
                        0 <= k < j ==> lower_of(#[trigger] it.names@[k]@) != lt@,
                decreases it.names@.len() - j,
            {
                let ln = to_lower(it.names[j].as_str());
                if ln == lt {
                    matched = true;
                    proof {
                        assert(lower_of(it.names@[j as int]@) == lt@);
                    }
                }
                j = j + 1;
            }
            if matched {
                return Ok(self.config.path[i].clone());
            }
            proof {
                assert(!answers_to(items[i as int], lt@));
            }
            i = i + 1;
        }
        let mut msg = String::from_str("No that target[");
        msg.append(target);
        msg.append("]");
        proof {
            assert(msg@ =~= "No that target["@ + target@ + "]"@);
        }
        Err(msg)
    }

    /// Finds the registered item at exactly this path, if any; the first
    /// match wins.
    pub fn reg_find_by_path(&self, pp: &str) -> (r: Option<RegItem>)
        ensures
            match r {
                Some(it) => {
                    &&& first_at_path(self.config.path@, pp@, 0) is Some
                    &&& reg_item_like(
                        self.config.path@[first_at_path(self.config.path@, pp@, 0)->Some_0],
                        it,
                    )
                },
                None => first_at_path(self.config.path@, pp@, 0) is None,
            },
    {
        let ghost items = self.config.path@;
        let mut i: usize = 0;
        while i < self.config.path.len()
            invariant
                items == self.config.path@,
                i <= items.len(),
                first_at_path(items, pp@, 0) == first_at_path(items, pp@, i as int),
            decreases items.len() - i,
        {
            if str_eq(self.config.path[i].path.as_str(), pp) {
                return Some(self.config.path[i].clone());
            }
            i = i + 1;
        }
        None
    }

    /// The registered items one of whose names mentions `sub`, compared
    /// without regard to case: exactly the matching subsequence of the
    /// registry, in registry order.
    pub fn reg_find_items(&self, sub: &str) -> (r: Vec<RegItem>)
        ensures
            reg_models(r@) == mentioned_models(self.config.path@, lower_of(sub@)),
    {
        let ghost items = self.config.path@;
        let ls = to_lower(sub);
        let mut r: Vec<RegItem> = Vec::new();
        let mut i: usize = 0;
        proof {
            assert(items.subrange(0, 0).len() == 0);
            assert(reg_models(r@) =~= mentioned_models(items.subrange(0, 0), ls@));
        }
        while i < self.config.path.len()
            invariant
                items == self.config.path@,
                ls@ == lower_of(sub@),
                i <= items.len(),
                reg_models(r@) == mentioned_models(items.subrange(0, i as int), ls@),
            decreases items.len() - i,
        {
            proof {
                assert(items.subrange(0, i + 1).drop_last() =~= items.subrange(0, i as int));
                assert(items.subrange(0, i + 1).last() == items[i as int]);
            }
            let it = &self.config.path[i];
            let mut j: usize = 0;
            let mut matched: bool = false;
            while j < it.names.len()
                invariant
                    items == self.config.path@,
                    ls@ == lower_of(sub@),
                    i < items.len(),
                    it == &self.config.path[i as int],
                    j <= it.names@.len(),
                    matched ==> name_mentions(items[i as int], ls@),
                    !matched ==> forall|k: int|
                        0 <= k < j ==> !contains_sub(lower_of(#[trigger] it.names@[k]@), ls@),
                decreases it.names@.len() - j,
            {
                let ln = to_lower(it.names[j].as_str());
                if str_contains(ln.as_str(), ls.as_str()) {
                    matched = true;
                    proof {
                        assert(contains_sub(lower_of(it.names@[j as int]@), ls@));
                    }
                }
                j = j + 1;
            }
            if matched {
                let ghost before = r@;
                r.push(self.config.path[i].clone());
                proof {
                    assert(reg_model(r@[r@.len() - 1]) == reg_model(items[i as int]));
                    assert(reg_models(r@) =~= reg_models(before).push(reg_model(items[i as int])));
                    assert(reg_models(r@) =~= mentioned_models(items.subrange(0, i + 1), ls@));
                }
            } else {
                proof {
                    assert(!name_mentions(items[i as int], ls@));
                    assert(reg_models(r@) =~= mentioned_models(items.subrange(0, i + 1), ls@));
                }
            }
            i = i + 1;
        }
        proof {
            assert(items.subrange(0, items.len() as int) =~= items);
        }
        r
    }

    /// Removes the first registered item at `pp`, reporting whether one
    /// was there.
    pub fn reg_remove(&mut self, pp: &str) -> (removed: bool)
        ensures
            removed <==> first_at_path(old(self).config.path@, pp@, 0) is Some,
            final(self).config.is_pull_rebase == old(self).config.is_pull_rebase,
            final(self).config.is_push_rebase == old(self).config.is_push_rebase,
            final(self).config.grep_app@ == old(self).config.grep_app@,
            final(self).config.edit_app@ == old(self).config.edit_app@,
            final(self).config_path@ == old(self).config_path@,
            match first_at_path(old(self).config.path@, pp@, 0) {
                Some(idx) => final(self).config.path@ == old(self).config.path@.remove(idx),
                None => final(self).config.path@ == old(self).config.path@,
            },
    {
        let ghost items = self.config.path@;
        let mut i: usize = 0;
        while i < self.config.path.len()
            invariant
                items == self.config.path@,
                old(self).config.path@ == items,
                *self == *old(self),
                i <= items.len(),
                first_at_path(items, pp@, 0) == first_at_path(items, pp@, i as int),
            decreases items.len() - i,
        {
            if str_eq(self.config.path[i].path.as_str(), pp) {
                self.config.path.remove(i);
                return true;
            }
            i = i + 1;
        }
        false
    }
}

} // verus!
