//! The node's named wallets and which one is active. The app keeps each
//! wallet in a file of its own; this is the bookkeeping.

use vstd::prelude::*;
use crate::codec::{copy_string, str_eq};
use crate::crypto::{base58_text};
use crate::models::wallet::{Wallet, phrase_or_empty, pub_key_hash_of, wallet_json_text, wif_bytes};
use crate::codec::hex_lower;

verus! {

broadcast use {vstd::seq::group_seq_axioms, vstd::seq_lib::group_seq_properties};

#[derive(Debug)]
pub struct WalletManager {
    pub selected: String,
    pub wallets: Vec<(String, Wallet)>,
}

/// The names of a list of named wallets.
pub open spec fn names_of(s: Seq<(String, Wallet)>) -> Seq<Seq<char>> {
    s.map_values(|e: (String, Wallet)| e.0@)
}

impl WalletManager {
    /// The wallets by name, in the order they were added.
    pub open spec fn entries(&self) -> Seq<(String, Wallet)> {
        self.wallets@
    }

    /// The names, each once.
    pub open spec fn names(&self) -> Seq<Seq<char>> {
        names_of(self.entries())
    }

    /// No name occurs twice.
    pub open spec fn wf(&self) -> bool {
        self.names().no_duplicates()
    }

    /// Whether a wallet of that name is held.
    pub open spec fn holds(&self, name: Seq<char>) -> bool {
        self.names().contains(name)
    }

    /// The wallet of that name.
    pub open spec fn wallet_named(&self, name: Seq<char>) -> Wallet {
        self.entries()[self.names().index_of(name)].1
    }

    /// The wallets that were loaded, the active one being `default`; a fresh
    /// wallet named `default` is added when there are none. The app stores
    /// that one.
    pub fn with_wallets(loaded: Vec<(String, Wallet)>) -> (r: WalletManager)
        requires
            names_of(loaded@).no_duplicates(),
        ensures
            r.wf(),
            r.selected@ == "default"@,
            loaded@.len() > 0 ==> r.entries() == loaded@,
            loaded@.len() == 0 ==> r.names() == seq!["default"@] && r.wallet_named("default"@).wf(),
    {
        if loaded.len() == 0 {
            let mut wallets: Vec<(String, Wallet)> = Vec::new();
            wallets.push(("default".to_string(), Wallet::new()));
            let r = WalletManager { selected: "default".to_string(), wallets };
            assert(r.names() =~= seq!["default"@]);
            assert(r.names().index_of("default"@) == 0) by {
                assert(r.names()[0] == "default"@);
            }
            r
        } else {
            WalletManager { selected: "default".to_string(), wallets: loaded }
        }
    }

    /// A manager with only a fresh `default` wallet.
    pub fn new() -> (r: WalletManager)
        ensures
            r.wf(),
            r.selected@ == "default"@,
            r.names() == seq!["default"@],
            r.wallet_named("default"@).wf(),
    {
        WalletManager::with_wallets(Vec::new())
    }

    fn position(&self, name: &str) -> (r: Option<usize>)
        ensures
            r is None <==> !self.holds(name@),
            r matches Some(i) ==> i < self.entries().len() && self.names()[i as int] == name@,
    {
        let n = self.wallets.len();
        for i in 0..n
            invariant
                n == self.wallets@.len(),
                forall|j: int| 0 <= j < i ==> self.names()[j] != name@,
        {
            assert(self.names()[i as int] == self.wallets@[i as int].0@);
            if str_eq(self.wallets[i].0.as_str(), name) {
                return Some(i);
            }
        }
        assert(!self.names().contains(name@)) by {
            if self.names().contains(name@) {
                let j = choose|j: int| 0 <= j < self.names().len() && self.names()[j] == name@;
            }
        }
        None
    }

    /// Adds a wallet under `name`, in place of any wallet of that name;
    /// returns its address.
    pub fn insert_wallet(&mut self, name: &str, wallet: Wallet) -> (r: String)
        requires
            old(self).wf(),
        ensures
            final(self).wf(),
            final(self).selected == old(self).selected,
            final(self).holds(name@),
            final(self).wallet_named(name@) == wallet,
            forall|n: Seq<char>|
                n != name@ ==> (#[trigger] final(self).holds(n) <==> old(self).holds(n)),
            forall|n: Seq<char>|
                n != name@ && old(self).holds(n) ==> #[trigger] final(self).wallet_named(n) == old(
                    self,
                ).wallet_named(n),
            r@ == hex_lower(pub_key_hash_of(wallet.public_key@)),
    {
        let address = wallet.address();
        let ghost old_names = self.names();
        match self.position(name) {
            Some(i) => {
                self.wallets.set(i, (name.to_string(), wallet));
                proof {
                    assert(self.names() =~= old_names.update(i as int, name@));
                    assert(self.names()[i as int] == name@);
                    assert(self.names().index_of(name@) == i as int);
                    assert forall|n: Seq<char>| n != name@ implies (#[trigger] self.holds(n) <==> old(
                        self,
                    ).holds(n)) by {
                        if self.holds(n) {
                            let j = self.names().index_of(n);
                            assert(old_names[j] == n);
                        }
                        if old(self).holds(n) {
                            let j = old_names.index_of(n);
                            assert(self.names()[j] == n);
                        }
                    }
                    assert forall|n: Seq<char>| n != name@ && old(self).holds(n) implies #[trigger] self.wallet_named(n)
                        == old(self).wallet_named(n) by {
                        let j = old_names.index_of(n);
                        assert(self.names()[j] == n);
                        assert(self.names().index_of(n) == j);
                    }
                }
            },
            None => {
                self.wallets.push((name.to_string(), wallet));
                proof {
                    assert(self.names() =~= old_names.push(name@));
                    let k = old_names.len() as int;
                    assert(self.names()[k] == name@);
                    assert(self.names().index_of(name@) == k);
                    assert forall|n: Seq<char>| n != name@ implies (#[trigger] self.holds(n) <==> old(
                        self,
                    ).holds(n)) by {
                        if self.holds(n) {
                            let j = self.names().index_of(n);
                            assert(old_names[j] == n);
                        }
                        if old(self).holds(n) {
                            let j = old_names.index_of(n);
                            assert(self.names()[j] == n);
                        }
                    }
                    assert forall|n: Seq<char>| n != name@ && old(self).holds(n) implies #[trigger] self.wallet_named(n)
                        == old(self).wallet_named(n) by {
                        let j = old_names.index_of(n);
                        assert(self.names()[j] == n);
                        assert(self.names().index_of(n) == j);
                    }
                }
            },
        }
        address
    }

    /// Adds a fresh wallet under a new name; returns its address. A name
    /// that is taken is refused.
    pub fn create_wallet(&mut self, name: &str) -> (r: Result<String, String>)
        requires
            old(self).wf(),
        ensures
            final(self).wf(),
            old(self).holds(name@) ==> (r matches Err(e) && e@ == "Wallet exists"@ && *final(self)
                == *old(self)),
            !old(self).holds(name@) ==> {
                &&& r matches Ok(a) && a@ == hex_lower(
                    pub_key_hash_of(final(self).wallet_named(name@).public_key@),
                )
                &&& final(self).holds(name@)
                &&& final(self).wallet_named(name@).wf()
                &&& final(self).names() == old(self).names().push(name@)
                &&& final(self).selected == old(self).selected
            },
    {
        if self.position(name).is_some() {
            return Err("Wallet exists".to_string());
        }
        let ghost old_names = self.names();
        let wallet = Wallet::new();
        let address = wallet.address();
        self.wallets.push((name.to_string(), wallet));
        proof {
            assert(self.names() =~= old_names.push(name@));
            let k = old_names.len() as int;
            assert(self.names()[k] == name@);
            assert(self.names().index_of(name@) == k);
        }
        Ok(address)
    }

    /// Makes the named wallet the active one.
    pub fn select_wallet(&mut self, name: &str) -> (r: Result<(), String>)
        ensures
            old(self).holds(name@) ==> r is Ok && final(self).selected@ == name@ && final(self).entries()
                == old(self).entries(),
            !old(self).holds(name@) ==> (r matches Err(e) && e@ == "Wallet not found"@) && *final(self)
                == *old(self),
    {
        if self.position(name).is_none() {
            return Err("Wallet not found".to_string());
        }
        self.selected = name.to_string();
        Ok(())
    }

    /// The wallet of that name, if held.
    pub fn get_wallet(&self, name: &str) -> (r: Option<&Wallet>)
        requires
            self.wf(),
        ensures
            self.holds(name@) ==> (r matches Some(w) && *w == self.wallet_named(name@)),
            !self.holds(name@) ==> r is None,
    {
        match self.position(name) {
            Some(i) => {
                proof {
                    assert(self.wf() ==> self.names().index_of(name@) == i as int) by {
                        if self.wf() {
                            let j = self.names().index_of(name@);
                            assert(self.names()[j] == self.names()[i as int]);
                        }
                    }
                }
                Some(&self.wallets[i].1)
            },
            None => None,
        }
    }

    /// The active wallet.
    pub fn current_wallet(&self) -> (r: &Wallet)
        requires
            self.wf(),
            self.holds(self.selected@),
        ensures
            *r == self.wallet_named(self.selected@),
    {
        match self.get_wallet(self.selected.as_str()) {
            Some(w) => w,
            None => {
                assert(false);
                &self.wallets[0].1
            },
        }
    }

    /// The names of the wallets.
    pub fn list_wallets(&self) -> (r: Vec<String>)
        ensures
            r@.map_values(|s: String| s@) == self.names(),
    {
        let mut out: Vec<String> = Vec::new();
        let n = self.wallets.len();
        for i in 0..n
            invariant
                n == self.wallets@.len(),
                out@.map_values(|s: String| s@) == self.names().take(i as int),
        {
            let ghost before = out@.map_values(|s: String| s@);
            out.push(copy_string(&self.wallets[i].0));
            assert(out@.map_values(|s: String| s@) =~= before.push(self.wallets@[i as int].0@));
            assert(self.names().take(i + 1) =~= self.names().take(i as int).push(self.names()[i as int]));
        }
        assert(self.names().take(n as int) =~= self.names());
        out
    }

    /// The named wallet as WIF (mainnet) or JSON text, for the app to write
    /// out.
    pub fn export_wallet(&self, name: &str, format: &str) -> (r: Result<String, String>)
        requires
            self.wf(),
        ensures
            !self.holds(name@) ==> (r matches Err(e) && e@ == "Wallet not found"@),
            self.holds(name@) && format@ == "wif"@ ==> (r matches Ok(t) && t@ == base58_text(
                wif_bytes(self.wallet_named(name@).private_key@, false),
            )),
            self.holds(name@) && format@ == "json"@ ==> (r matches Ok(t) && t@ == wallet_json_text(
                self.wallet_named(name@).private_key@,
                self.wallet_named(name@).public_key@,
                phrase_or_empty(self.wallet_named(name@).mnemonic_view()),
            )),
            self.holds(name@) && format@ != "wif"@ && format@ != "json"@ ==> (r matches Err(e) && e@
                == "Format must be 'wif' or 'json'"@),
    {
        let wallet = match self.get_wallet(name) {
            Some(w) => w,
            None => {
                return Err("Wallet not found".to_string());
            },
        };
        proof {
            reveal_strlit("wif");
            reveal_strlit("json");
            assert("json"@.len() == 4 && "wif"@.len() == 3);
            assert("json"@ != "wif"@);
        }
        if str_eq(format, "wif") {
            Ok(wallet.to_wif(false))
        } else if str_eq(format, "json") {
            let t = wallet.to_json();
            assert(*wallet == self.wallet_named(name@));
            assert(t@ == wallet_json_text(
                self.wallet_named(name@).private_key@,
                self.wallet_named(name@).public_key@,
                phrase_or_empty(self.wallet_named(name@).mnemonic_view()),
            ));
            Ok(t)
        } else {
            Err("Format must be 'wif' or 'json'".to_string())
        }
    }
}

} // verus!
