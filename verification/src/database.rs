//! The in-memory record store: users as loaded from disk, and the groups
//! derived from them. Groups have no records of their own: a group exists
//! exactly because some user names it.

use argon2::PasswordVerifier;
use vstd::prelude::*;

verus! {

// ---------------------------------------------------------------------------
// Model
// ---------------------------------------------------------------------------

/// Model of one user record.
pub struct UserView {
    pub name: Seq<char>,
    pub password: Seq<char>,
    pub first_name: Seq<char>,
    pub last_name: Seq<char>,
    pub mail: Seq<char>,
    pub groups: Seq<Seq<char>>,
}

/// Whether `password` matches the password hash written in `hash` (a PHC
/// string): the result of Argon2 verification, which depends on the two
/// arguments alone.
pub uninterp spec fn password_matches(hash: Seq<char>, password: Seq<u8>) -> bool;

/// All group names named by any user, in user order, repetitions kept.
pub open spec fn all_group_names(users: Seq<UserView>) -> Seq<Seq<char>>
    decreases users.len(),
{
    if users.len() == 0 {
        Seq::empty()
    } else {
        all_group_names(users.drop_last()) + users.last().groups
    }
}

/// Keep the first occurrence of every element, in order.
pub open spec fn dedup(s: Seq<Seq<char>>) -> Seq<Seq<char>>
    decreases s.len(),
{
    if s.len() == 0 {
        Seq::empty()
    } else if s.drop_last().contains(s.last()) {
        dedup(s.drop_last())
    } else {
        dedup(s.drop_last()).push(s.last())
    }
}

/// An element is in the de-duplicated list exactly when it is in the list.
pub proof fn lemma_dedup_contains(s: Seq<Seq<char>>, x: Seq<char>)
    ensures
        dedup(s).contains(x) <==> s.contains(x),
    decreases s.len(),
{
    if s.len() > 0 {
        let dl = s.drop_last();
        let d = dedup(dl);
        lemma_dedup_contains(dl, x);
        if dl.contains(x) {
            let i = choose|i: int| 0 <= i < dl.len() && dl[i] == x;
            assert(s[i] == x);
            assert(s.contains(x));
        }
        if x == s.last() {
            assert(s[s.len() - 1] == x);
            assert(s.contains(x));
        }
        if s.contains(x) {
            let i = choose|i: int| 0 <= i < s.len() && s[i] == x;
            if i < s.len() - 1 {
                assert(dl[i] == x);
                assert(dl.contains(x));
            }
        }
        if dl.contains(s.last()) {
            // dedup(s) == d
            if s.contains(x) {
                let i = choose|i: int| 0 <= i < s.len() && s[i] == x;
                if i == s.len() - 1 {
                    assert(dl.contains(x));
                }
            }
        } else {
            // dedup(s) == d.push(s.last())
            if dedup(s).contains(x) {
                let i = choose|i: int| 0 <= i < dedup(s).len() && dedup(s)[i] == x;
                if i < d.len() {
                    assert(d[i] == x);
                    assert(d.contains(x));
                } else {
                    assert(x == s.last());
                }
            }
            if d.contains(x) {
                let i = choose|i: int| 0 <= i < d.len() && d[i] == x;
                assert(dedup(s)[i] == x);
                assert(dedup(s).contains(x));
            }
            if x == s.last() {
                assert(dedup(s)[d.len() as int] == x);
                assert(dedup(s).contains(x));
            }
        }
    }
}

/// The group names of the store: every name in any user's group set, first
/// occurrence order, each once.
pub open spec fn spec_group_names(users: Seq<UserView>) -> Seq<Seq<char>> {
    dedup(all_group_names(users))
}

/// The users whose group set contains `gname`, in store order.
pub open spec fn spec_members(users: Seq<UserView>, gname: Seq<char>) -> Seq<UserView>
    decreases users.len(),
{
    if users.len() == 0 {
        Seq::empty()
    } else if users.last().groups.contains(gname) {
        spec_members(users.drop_last(), gname).push(users.last())
    } else {
        spec_members(users.drop_last(), gname)
    }
}

/// The first user whose name is exactly `name`.
pub open spec fn spec_find_by_name(users: Seq<UserView>, name: Seq<char>) -> Option<UserView>
    decreases users.len(),
{
    if users.len() == 0 {
        None
    } else if users[0].name == name {
        Some(users[0])
    } else {
        spec_find_by_name(users.drop_first(), name)
    }
}

/// Whether a user with exactly this name exists and the password verifies.
pub open spec fn spec_check_credentials(
    users: Seq<UserView>,
    name: Seq<char>,
    password: Seq<u8>,
) -> bool {
    match spec_find_by_name(users, name) {
        Some(u) => password_matches(u.password, password),
        None => false,
    }
}

// ---------------------------------------------------------------------------
// Records
// ---------------------------------------------------------------------------

/// One user record: the unique name, the password hash in PHC string form,
/// the personal fields, and the names of the groups the user belongs to.
#[derive(Debug)]
pub struct User {
    pub name: String,
    pub password: String,
    pub first_name: String,
    pub last_name: String,
    pub mail: String,
    pub groups: Vec<String>,
}

impl View for User {
    type V = UserView;

    open spec fn view(&self) -> UserView {
        UserView {
            name: self.name@,
            password: self.password@,
            first_name: self.first_name@,
            last_name: self.last_name@,
            mail: self.mail@,
            groups: self.groups@.map_values(|g: String| g@),
        }
    }
}

/// One derived group: only a name.
#[derive(Debug)]
pub struct Group {
    pub name: String,
}

impl View for Group {
    type V = Seq<char>;

    open spec fn view(&self) -> Seq<char> {
        self.name@
    }
}

/// The immutable store snapshot: the user records, loaded once.
#[derive(Debug)]
pub struct Database {
    pub users: Vec<User>,
}

impl View for Database {
    type V = Seq<UserView>;

    open spec fn view(&self) -> Seq<UserView> {
        self.users@.map_values(|u: User| u@)
    }
}

fn clone_strings(v: &Vec<String>) -> (r: Vec<String>)
    ensures
        r@.map_values(|s: String| s@) == v@.map_values(|s: String| s@),
{
    let mut r: Vec<String> = Vec::new();
    let mut i: usize = 0;
    while i < v.len()
        invariant
            i <= v@.len(),
            r@.len() == i,
            forall|j: int| 0 <= j < i ==> #[trigger] r@[j]@ == v@[j]@,
        decreases v@.len() - i,
    {
        r.push(v[i].clone());
        i += 1;
    }
    proof {
        let a = r@.map_values(|s: String| s@);
        let b = v@.map_values(|s: String| s@);
        assert forall|j: int| 0 <= j < a.len() implies #[trigger] a[j] == b[j] by {
            assert(a[j] == r@[j]@);
            assert(b[j] == v@[j]@);
        }
        assert(a =~= b);
    }
    r
}

impl Clone for User {
    fn clone(&self) -> (r: User)
        ensures
            r@ == self@,
    {
        let r = User {
            name: self.name.clone(),
            password: self.password.clone(),
            first_name: self.first_name.clone(),
            last_name: self.last_name.clone(),
            mail: self.mail.clone(),
            groups: clone_strings(&self.groups),
        };
        proof {
            assert(r@.groups =~= self@.groups);
        }
        r
    }
}

impl Clone for Group {
    fn clone(&self) -> (r: Group)
        ensures
            r@ == self@,
    {
        Group { name: self.name.clone() }
    }
}

/// Relies on `argon2::Argon2::verify_password` for `&str` hashes (with
/// `Argon2::default`): whether `password` matches the PHC hash string
/// `hash`. The comparison is deterministic in the two arguments; an
/// unparsable hash verifies nothing.
#[verifier::external_body]
fn argon2_verify(hash: &str, password: &[u8]) -> (r: bool)
    ensures
        r == password_matches(hash@, password@),
{
    PasswordVerifier::<str>::verify_password(&argon2::Argon2::default(), password, hash).is_ok()
}

/// Compare two string slices character by character.
pub(crate) fn str_eq(a: &str, b: &str) -> (r: bool)
    ensures
        r == (a@ == b@),
{
    let n = a.unicode_len();
    let m = b.unicode_len();
    if n != m {
        return false;
    }
    let mut i: usize = 0;
    while i < n
        invariant
            i <= n,
            n == a@.len(),
            n == b@.len(),
            forall|j: int| 0 <= j < i ==> a@[j] == b@[j],
        decreases n - i,
    {
        if a.get_char(i) != b.get_char(i) {
            return false;
        }
        i += 1;
    }
    proof {
        assert(a@ =~= b@);
    }
    true
}

impl User {
    /// The groups this user belongs to, as derived group records.
    pub fn groups(&self) -> (r: Vec<Group>)
        ensures
            r@.map_values(|g: Group| g@) == self@.groups,
    {
        let mut r: Vec<Group> = Vec::new();
        let mut i: usize = 0;
        while i < self.groups.len()
            invariant
                i <= self.groups@.len(),
                r@.len() == i,
                forall|j: int| 0 <= j < i ==> #[trigger] r@[j]@ == self.groups@[j]@,
            decreases self.groups@.len() - i,
        {
            r.push(Group { name: self.groups[i].clone() });
            i += 1;
        }
        proof {
            let a = r@.map_values(|g: Group| g@);
            assert forall|j: int| 0 <= j < a.len() implies #[trigger] a[j] == self@.groups[j] by {
                assert(a[j] == r@[j]@);
                assert(self@.groups[j] == self.groups@[j]@);
            }
            assert(a =~= self@.groups);
        }
        r
    }

    /// Whether `password` matches this user's stored hash. Always runs the
    /// real Argon2 comparison.
    pub fn verify_password(&self, password: &[u8]) -> (r: bool)
        ensures
            r == password_matches(self@.password, password@),
    {
        argon2_verify(self.password.as_str(), password)
    }
}

impl Group {
    /// The users whose group set contains this group's name, in store order.
    pub fn members(&self, db: &Database) -> (r: Vec<User>)
        ensures
            r@.map_values(|u: User| u@) == spec_members(db@, self@),
    {
        let mut r: Vec<User> = Vec::new();
        let mut i: usize = 0;
        while i < db.users.len()
            invariant
                i <= db.users@.len(),
                db@.len() == db.users@.len(),
                r@.map_values(|u: User| u@) == spec_members(db@.take(i as int), self@),
            decreases db.users@.len() - i,
        {
            let ghost pre = r@.map_values(|u: User| u@);
            let u = &db.users[i];
            let mut found = false;
            let mut k: usize = 0;
            while k < u.groups.len()
                invariant
                    k <= u.groups@.len(),
                    found <==> exists|t: int| 0 <= t < k && #[trigger] u.groups@[t]@ == self@,
                decreases u.groups@.len() - k,
            {
                if str_eq(u.groups[k].as_str(), self.name.as_str()) {
                    found = true;
                    proof {
                        assert(u.groups@[k as int]@ == self@);
                    }
                }
                k += 1;
            }
            proof {
                let gs = u.groups@.map_values(|g: String| g@);
                if found {
                    let t = choose|t: int| 0 <= t < u.groups@.len() && #[trigger] u.groups@[t]@
                        == self@;
                    assert(gs[t] == self@);
                    assert(gs.contains(self@));
                } else {
                    assert forall|t: int| 0 <= t < gs.len() implies gs[t] != self@ by {
                        assert(u.groups@[t]@ != self@);
                        assert(gs[t] == u.groups@[t]@);
                    }
                    assert(!gs.contains(self@));
                }
                assert(found <==> gs.contains(self@));
                assert(db@[i as int] == db.users@[i as int]@);
                assert(db@.take(i + 1).drop_last() =~= db@.take(i as int));
                assert(db@.take(i + 1).last() == db@[i as int]);
            }
            if found {
                r.push(u.clone());
                proof {
                    let m = r@.map_values(|u: User| u@);
                    assert forall|t: int| 0 <= t < m.len() implies m[t] == pre.push(
                        db@[i as int],
                    )[t] by {
                        assert(m[t] == r@[t]@);
                        if t < m.len() - 1 {
                            assert(pre[t] == r@[t]@);
                        }
                    }
                    assert(m =~= spec_members(db@.take(i + 1), self@));
                }
            }
            i += 1;
        }
        proof {
            assert(db@.take(db@.len() as int) =~= db@);
        }
        r
    }
}

impl Database {
    /// A store over the given user records.
    pub fn new(users: Vec<User>) -> (r: Database)
        ensures
            r@ == users@.map_values(|u: User| u@),
    {
        Database { users }
    }

    /// The user records, in load order.
    pub fn users(&self) -> (r: &Vec<User>)
        ensures
            r@.map_values(|u: User| u@) == self@,
    {
        &self.users
    }

    /// The derived groups: every group name any user carries, first
    /// occurrence order, each exactly once.
    pub fn groups(&self) -> (r: Vec<Group>)
        ensures
            r@.map_values(|g: Group| g@) == spec_group_names(self@),
    {
        let mut all: Vec<String> = Vec::new();
        let mut i: usize = 0;
        while i < self.users.len()
            invariant
                i <= self.users@.len(),
                self@.len() == self.users@.len(),
                all@.len() == all_group_names(self@.take(i as int)).len(),
                forall|t: int|
                    0 <= t < all@.len() ==> #[trigger] all@[t]@ == all_group_names(
                        self@.take(i as int),
                    )[t],
            decreases self.users@.len() - i,
        {
            let ghost gnames_pre = all_group_names(self@.take(i as int));
            let ghost all0 = all@;
            let u = &self.users[i];
            let mut k: usize = 0;
            while k < u.groups.len()
                invariant
                    k <= u.groups@.len(),
                    all@.len() == all0.len() + k,
                    forall|t: int| 0 <= t < all0.len() ==> #[trigger] all@[t] == all0[t],
                    forall|t: int|
                        0 <= t < k ==> #[trigger] all@[all0.len() + t]@ == u.groups@[t]@,
                decreases u.groups@.len() - k,
            {
                all.push(u.groups[k].clone());
                k += 1;
            }
            proof {
                let gnames = all_group_names(self@.take(i + 1));
                assert(self@[i as int] == self.users@[i as int]@);
                assert(self@.take(i + 1).drop_last() =~= self@.take(i as int));
                assert(self@.take(i + 1).last() == self@[i as int]);
                let gs = self@[i as int].groups;
                assert(gnames == gnames_pre + gs);
                assert forall|t: int| 0 <= t < all@.len() implies #[trigger] all@[t]@
                    == gnames[t] by {
                    if t < all0.len() {
                        assert(all@[t] == all0[t]);
                        assert(all0[t]@ == gnames_pre[t]);
                    } else {
                        assert(all@[all0.len() + (t - all0.len())]@ == u.groups@[t - all0.len()]@);
                        assert(gs[t - all0.len()] == u.groups@[t - all0.len()]@);
                    }
                }
            }
            i += 1;
        }
        proof {
            assert(self@.take(self@.len() as int) =~= self@);
        }
        let allv = all;
        let ghost names = allv@.map_values(|s: String| s@);
        proof {
            assert forall|t: int| 0 <= t < names.len() implies #[trigger] names[t]
                == allv@[t]@ by {}
            assert(names =~= all_group_names(self@));
        }
        let mut out: Vec<Group> = Vec::new();
        let mut j: usize = 0;
        while j < allv.len()
            invariant
                j <= allv@.len(),
                names.len() == allv@.len(),
                forall|t: int| 0 <= t < names.len() ==> #[trigger] names[t] == allv@[t]@,
                names == all_group_names(self@),
                out@.len() == dedup(names.take(j as int)).len(),
                forall|t: int|
                    0 <= t < out@.len() ==> #[trigger] out@[t]@ == dedup(names.take(j as int))[t],
            decreases allv@.len() - j,
        {
            let ghost d_pre = dedup(names.take(j as int));
            let mut seen = false;
            let mut k: usize = 0;
            while k < out.len()
                invariant
                    k <= out@.len(),
                    j < allv@.len(),
                    seen <==> exists|t: int| 0 <= t < k && #[trigger] out@[t]@ == allv@[j as int]@,
                decreases out@.len() - k,
            {
                if str_eq(out[k].name.as_str(), allv[j].as_str()) {
                    seen = true;
                    proof {
                        assert(out@[k as int]@ == allv@[j as int]@);
                    }
                }
                k += 1;
            }
            proof {
                assert(names[j as int] == allv@[j as int]@);
                if seen {
                    let t = choose|t: int|
                        0 <= t < out@.len() && #[trigger] out@[t]@ == allv@[j as int]@;
                    assert(out@[t]@ == d_pre[t]);
                    assert(d_pre.contains(names[j as int]));
                } else {
                    assert forall|t: int| 0 <= t < d_pre.len() implies d_pre[t] != names[j as int]
                        by {
                        assert(out@[t]@ == d_pre[t]);
                        assert(out@[t]@ != allv@[j as int]@);
                    }
                    assert(!d_pre.contains(names[j as int]));
                }
                lemma_dedup_contains(names.take(j as int), names[j as int]);
                assert(names.take(j + 1).drop_last() =~= names.take(j as int));
                assert(names.take(j + 1).last() == names[j as int]);
            }
            if !seen {
                let ghost out0 = out@;
                out.push(Group { name: allv[j].clone() });
                proof {
                    assert(dedup(names.take(j + 1)) == d_pre.push(names[j as int]));
                    assert(out@[out0.len() as int]@ == names[j as int]);
                    assert forall|t: int| 0 <= t < out@.len() implies #[trigger] out@[t]@ == dedup(
                        names.take(j + 1),
                    )[t] by {
                        if t < out0.len() {
                            assert(out@[t] == out0[t]);
                        }
                    }
                }
            } else {
                proof {
                    assert(dedup(names.take(j + 1)) == d_pre);
                }
            }
            j += 1;
        }
        proof {
            assert(names.take(names.len() as int) =~= names);
            let m = out@.map_values(|g: Group| g@);
            assert forall|t: int| 0 <= t < m.len() implies #[trigger] m[t] == dedup(names)[t] by {
                assert(m[t] == out@[t]@);
            }
            assert(m =~= spec_group_names(self@));
        }
        out
    }

    /// The first user whose name is exactly `name`, if any.
    pub fn find_user(&self, name: &str) -> (r: Option<&User>)
        ensures
            match r {
                Some(u) => spec_find_by_name(self@, name@) == Some(u@),
                None => spec_find_by_name(self@, name@) is None,
            },
    {
        proof {
            assert(self@.subrange(0, self@.len() as int) =~= self@);
        }
        let mut i: usize = 0;
        while i < self.users.len()
            invariant
                i <= self.users@.len(),
                self@.len() == self.users@.len(),
                spec_find_by_name(self@, name@) == spec_find_by_name(
                    self@.subrange(i as int, self@.len() as int),
                    name@,
                ),
            decreases self.users@.len() - i,
        {
            proof {
                assert(self@[i as int] == self.users@[i as int]@);
                assert(self@.subrange(i as int, self@.len() as int)[0] == self@[i as int]);
            }
            if str_eq(self.users[i].name.as_str(), name) {
                return Some(&self.users[i]);
            }
            proof {
                assert(self@.subrange(i as int, self@.len() as int).drop_first() =~= self@.subrange(
                    i + 1,
                    self@.len() as int,
                ));
            }
            i += 1;
        }
        proof {
            assert(self@.subrange(self@.len() as int, self@.len() as int).len() == 0);
        }
        None
    }

    /// The access decision shared by both protocols: accept exactly when a
    /// user with this name exists and the password verifies. The Argon2
    /// comparison runs whether or not a user was found.
    pub fn check_credentials(&self, name: &str, password: &[u8]) -> (r: bool)
        ensures
            r == spec_check_credentials(self@, name@, password@),
    {
        match self.find_user(name) {
            Some(u) => u.verify_password(password),
            None => {
                burn_password_check(password);
                false
            },
        }
    }
}

/// Run the Argon2 comparison against no stored hash, so that a lookup that
/// found no user costs about the same work as one that did.
pub(crate) fn burn_password_check(password: &[u8]) {
    let _ = argon2_verify("", password);
}

} // verus!
