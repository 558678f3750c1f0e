//! Who may make a request, and the small texts that go back to the caller.

use crate::history::CommitInfo;
use crate::path::name_views;
use vstd::prelude::*;
use vstd::string::*;

verus! {

/// Who makes a request, as the trusted front end says.
#[derive(Debug)]
pub struct UserInfo {
    pub user: String,
    pub email: String,
}

impl Clone for UserInfo {
    fn clone(&self) -> (r: Self)
        ensures
            r.user@ == self.user@,
            r.email@ == self.email@,
    {
        UserInfo { user: self.user.clone(), email: self.email.clone() }
    }
}

impl UserInfo {
    /// The commit that this user makes with the message `message`.
    pub fn commit_info(self, message: String) -> (r: CommitInfo)
        ensures
            r.message == message,
            r.author == self.user,
            r.email == self.email,
    {
        CommitInfo { message, author: self.user, email: self.email }
    }
}

/// Lets a request in only where the front end has named both the user and the
/// user's email address.
pub fn auth(remote_user: Option<String>, remote_email: Option<String>) -> (r: Option<UserInfo>)
    ensures
        r is Some <==> remote_user is Some && remote_email is Some,
        r matches Some(info) ==> info.user == remote_user->0 && info.email == remote_email->0,
{
    match (remote_user, remote_email) {
        (Some(user), Some(email)) => Some(UserInfo { user, email }),
        _ => None,
    }
}

/// The texts of `lines` with a line feed between each two of them.
pub open spec fn joined(lines: Seq<Seq<char>>) -> Seq<char>
    decreases lines.len(),
{
    if lines.len() == 0 {
        Seq::empty()
    } else if lines.len() == 1 {
        lines[0]
    } else {
        joined(lines.drop_last()) + seq!['\n'] + lines.last()
    }
}

/// Joins names into one text, one name a line.
pub fn join_lines(names: &Vec<String>) -> (r: String)
    ensures
        r@ == joined(name_views(names@)),
{
    let mut out = String::new();
    let mut i: usize = 0;
    while i < names.len()
        invariant
            0 <= i <= names@.len(),
            out@ == joined(name_views(names@).take(i as int)),
        decreases names@.len() - i,
    {
        let ghost before = name_views(names@).take(i as int);
        let ghost after = name_views(names@).take(i + 1);
        proof {
            assert(after.drop_last() =~= before);
            assert(after.last() == names@[i as int]@);
            reveal_strlit("\n");
            assert("\n"@ =~= seq!['\n']);
        }
        if i > 0 {
            out.append("\n");
        }
        out.append(names[i].as_str());
        proof {
            if i == 0 {
                assert(out@ =~= after[0]);
            }
        }
        i = i + 1;
    }
    proof {
        assert(name_views(names@).take(names@.len() as int) =~= name_views(names@));
    }
    out
}

} // verus!
