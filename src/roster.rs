use vstd::prelude::*;
use crate::message::{JoinResponse, User};

verus! {

/// Whether some entry of `users` carries `name`.
pub open spec fn has_name(users: Seq<(Seq<char>, Seq<char>)>, name: Seq<char>) -> bool {
    exists|i: int| 0 <= i < users.len() && #[trigger] users[i].1 == name
}

/// No two entries of `users` carry the same name.
pub open spec fn names_distinct(users: Seq<(Seq<char>, Seq<char>)>) -> bool {
    forall|i: int, j: int|
        0 <= i < j < users.len() ==> #[trigger] users[i].1 != #[trigger] users[j].1
}

/// The roster after `user` asks to join `users`: appended when its name is
/// new, unchanged otherwise.
pub open spec fn joined(
    users: Seq<(Seq<char>, Seq<char>)>,
    user: (Seq<char>, Seq<char>),
) -> Seq<(Seq<char>, Seq<char>)> {
    if has_name(users, user.1) {
        users
    } else {
        users.push(user)
    }
}

/// The roster after each of `requests` asks to join `users`, in order.
pub open spec fn join_all(
    users: Seq<(Seq<char>, Seq<char>)>,
    requests: Seq<(Seq<char>, Seq<char>)>,
) -> Seq<(Seq<char>, Seq<char>)>
    decreases requests.len(),
{
    if requests.len() == 0 {
        users
    } else {
        joined(join_all(users, requests.drop_last()), requests.last())
    }
}

/// A join keeps the names of a roster distinct, whoever asks.
pub proof fn lemma_join_keeps_names_distinct(
    users: Seq<(Seq<char>, Seq<char>)>,
    user: (Seq<char>, Seq<char>),
)
    requires
        names_distinct(users),
    ensures
        names_distinct(joined(users, user)),
{
    if !has_name(users, user.1) {
        let after = users.push(user);
        assert forall|i: int, j: int| 0 <= i < j < after.len() implies #[trigger] after[i].1
            != #[trigger] after[j].1 by {
            if j == users.len() {
                assert(users[i].1 != user.1);
            } else {
                assert(users[i].1 != users[j].1);
            }
        }
    }
}

/// Whatever sequence of joins is made from an empty roster, no two entries
/// of the result carry the same name.
pub proof fn lemma_join_sequence_names_distinct(requests: Seq<(Seq<char>, Seq<char>)>)
    ensures
        names_distinct(join_all(Seq::empty(), requests)),
    decreases requests.len(),
{
    if requests.len() > 0 {
        lemma_join_sequence_names_distinct(requests.drop_last());
        lemma_join_keeps_names_distinct(
            join_all(Seq::empty(), requests.drop_last()),
            requests.last(),
        );
    }
}

/// Once a name has joined, a second join with that name leaves the roster,
/// and so its size, unchanged.
pub proof fn lemma_repeat_join_unchanged(
    users: Seq<(Seq<char>, Seq<char>)>,
    first: (Seq<char>, Seq<char>),
    second: (Seq<char>, Seq<char>),
)
    requires
        first.1 == second.1,
    ensures
        has_name(joined(users, first), second.1),
        joined(joined(users, first), second) == joined(users, first),
        joined(joined(users, first), second).len() == joined(users, first).len(),
{
    if !has_name(users, first.1) {
        let after = users.push(first);
        assert(after[users.len() as int].1 == second.1);
    }
}

/// A join is all or nothing: the roster seen afterwards is either the one
/// before, or the one before with the whole new entry appended, so no reader
/// of a roster ever sees half of a join.
pub proof fn lemma_join_all_or_nothing(
    users: Seq<(Seq<char>, Seq<char>)>,
    user: (Seq<char>, Seq<char>),
)
    ensures
        joined(users, user) == users || joined(users, user) == users.push(user),
        forall|i: int|
            0 <= i < joined(users, user).len() ==> (i < users.len() && #[trigger] joined(
                users,
                user,
            )[i] == users[i]) || (i == users.len() && joined(users, user)[i] == user),
{
}

/// The set of joined users, in order of joining.
pub struct Roster {
    users: Vec<User>,
}

impl View for Roster {
    type V = Seq<(Seq<char>, Seq<char>)>;

    closed spec fn view(&self) -> Seq<(Seq<char>, Seq<char>)> {
        self.users@.map_values(|u: User| u@)
    }
}

impl Roster {
    pub open spec fn well_formed(&self) -> bool {
        names_distinct(self@)
    }

    pub fn new() -> (r: Roster)
        ensures
            r.well_formed(),
            r@ == Seq::<(Seq<char>, Seq<char>)>::empty(),
    {
        let r = Roster { users: Vec::new() };
        assert(r@ =~= Seq::<(Seq<char>, Seq<char>)>::empty());
        r
    }

    /// Whether a joined user carries `name`.
    pub fn contains_name(&self, name: &String) -> (r: bool)
        ensures
            r == has_name(self@, name@),
    {
        let n = self.users.len();
        let mut i: usize = 0;
        while i < n
            invariant
                n == self.users@.len(),
                0 <= i <= n,
                forall|k: int| 0 <= k < i ==> #[trigger] self@[k].1 != name@,
            decreases n - i,
        {
            if self.users[i].name == *name {
                assert(self@[i as int].1 == name@);
                return true;
            }
            i = i + 1;
        }
        false
    }

    /// Adds `user` when no joined user has its name; leaves the roster as it
    /// is otherwise. Answers with error 0 and "Success", or with error 1 and
    /// "User already exists.".
    pub fn join(&mut self, user: User) -> (r: JoinResponse)
        requires
            old(self).well_formed(),
        ensures
            final(self).well_formed(),
            final(self)@ == joined(old(self)@, user@),
            !has_name(old(self)@, user.name@) ==> r.error == 0 && r.msg@ == "Success"@,
            has_name(old(self)@, user.name@) ==> r.error == 1 && r.msg@
                == "User already exists."@,
    {
        if self.contains_name(&user.name) {
            JoinResponse { error: 1, msg: String::from_str("User already exists.") }
        } else {
            let ghost before = self@;
            let ghost u = user@;
            self.users.push(user);
            assert(self@ =~= before.push(u));
            JoinResponse { error: 0, msg: String::from_str("Success") }
        }
    }

    /// A copy of every joined user, in order of joining.
    pub fn list_users(&self) -> (r: Vec<User>)
        ensures
            r@.map_values(|u: User| u@) == self@,
    {
        let n = self.users.len();
        let mut out: Vec<User> = Vec::new();
        let mut i: usize = 0;
        while i < n
            invariant
                n == self.users@.len(),
                0 <= i <= n,
                out@.map_values(|u: User| u@) =~= self@.take(i as int),
            decreases n - i,
        {
            out.push(self.users[i].duplicate());
            assert(self@.take(i + 1) =~= self@.take(i as int).push(self@[i as int]));
            i = i + 1;
        }
        assert(self@.take(n as int) =~= self@);
        out
    }

    /// The number of joined users.
    pub fn len(&self) -> (r: usize)
        ensures
            r == self@.len(),
    {
        self.users.len()
    }
}

} // verus!
