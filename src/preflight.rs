//! The checks made before the event loop starts, and the messages that tell
//! the operator how to mend what they found.

use vstd::prelude::*;

verus! {

/// Where the container runtime's socket is expected.
pub const DOCKER_SOCK_LOCATION: &'static str = "/var/run/docker.sock";

/// The advice on the hosts file, up to its location.
pub const PERMS_HEAD: &'static str = "File permssions to hosts file at `";

/// The advice on the hosts file, between the two mentions of its location.
pub const PERMS_MIDDLE: &'static str = "` must be set to allow your user to modify them.

Make sure of the following:
  1. The file ";

/// The advice on the hosts file, after the second mention of its location.
pub const PERMS_TAIL: &'static str = " exists (you will need to provide it as volume mount if you're using docker)
  2. You are running as a user who has access to the file
  3. On Mac and Windows, the `etc/hosts` file is protected by ACLs.  You will need to set an ACL setting to allow your user to modify the the file.
     On Mac this can be done by running this command:
     `sudo chmod +a \"user:$(whoami) allow read,write,append,readattr,writeattr,readextattr,writeextattr,readsecurity\" /etc/hosts`
     See the readme.md for windows directions

If you wish to use a different path, set the `HOST_FILE_LOCATION` env var or pass the `-h` argument.
";

/// The message on the missing socket, up to its location.
pub const SOCK_HEAD: &'static str = "Unable to find the unix socket `";

/// The message on the missing socket, after its location.
pub const SOCK_TAIL: &'static str = "`.  You are probably missing the volume mount for it.";

/// The advice given when the hosts file at `location` cannot be read and written.
pub open spec fn file_perms_text(location: Seq<char>) -> Seq<char> {
    PERMS_HEAD@ + location + PERMS_MIDDLE@ + location + PERMS_TAIL@
}

/// The message given when the runtime's socket is missing.
pub open spec fn missing_sock_text() -> Seq<char> {
    SOCK_HEAD@ + DOCKER_SOCK_LOCATION@ + SOCK_TAIL@
}

/// The advice given when the hosts file at `host_file_location` cannot be
/// read and written; the location appears in it twice.
pub fn get_file_perms_text(host_file_location: &str) -> (r: String)
    ensures
        r@ == file_perms_text(host_file_location@),
{
    let mut r = PERMS_HEAD.to_owned();
    r.append(host_file_location);
    r.append(PERMS_MIDDLE);
    r.append(host_file_location);
    r.append(PERMS_TAIL);
    r
}

/// The outcome of looking for the runtime's socket: fine where it exists,
/// else the message that says it is missing.
pub fn check_docker_sock(sock_exists: bool) -> (r: Result<(), String>)
    ensures
        sock_exists <==> r is Ok,
        r matches Err(m) ==> m@ == missing_sock_text(),
{
    if sock_exists {
        Ok(())
    } else {
        let mut m = SOCK_HEAD.to_owned();
        m.append(DOCKER_SOCK_LOCATION);
        m.append(SOCK_TAIL);
        Err(m)
    }
}

} // verus!
