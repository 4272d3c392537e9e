//! The request methods that a route can be registered for.

use vstd::prelude::*;

verus! {

/// A request method.
#[derive(Clone, Copy, Debug, PartialEq, Eq, Structural, Hash)]
pub enum Method {
    Get,
    Post,
    Put,
    Delete,
    Head,
    Options,
    Connect,
    Patch,
    Trace,
}

impl Method {
    /// The number of the method, from 0 for `Get` to 8 for `Trace`.
    pub open spec fn ordinal(self) -> u64 {
        match self {
            Method::Get => 0,
            Method::Post => 1,
            Method::Put => 2,
            Method::Delete => 3,
            Method::Head => 4,
            Method::Options => 5,
            Method::Connect => 6,
            Method::Patch => 7,
            Method::Trace => 8,
        }
    }

    /// Computes the number of the method.
    pub fn to_ordinal(&self) -> (n: u64)
        ensures
            n == self.ordinal(),
    {
        match self {
            Method::Get => 0,
            Method::Post => 1,
            Method::Put => 2,
            Method::Delete => 3,
            Method::Head => 4,
            Method::Options => 5,
            Method::Connect => 6,
            Method::Patch => 7,
            Method::Trace => 8,
        }
    }

    /// The method that a name stands for. Names are in upper case, as a
    /// request line has them.
    pub open spec fn named(name: Seq<char>) -> Option<Method> {
        if name == "GET"@ {
            Some(Method::Get)
        } else if name == "POST"@ {
            Some(Method::Post)
        } else if name == "PUT"@ {
            Some(Method::Put)
        } else if name == "DELETE"@ {
            Some(Method::Delete)
        } else if name == "HEAD"@ {
            Some(Method::Head)
        } else if name == "OPTIONS"@ {
            Some(Method::Options)
        } else if name == "CONNECT"@ {
            Some(Method::Connect)
        } else if name == "PATCH"@ {
            Some(Method::Patch)
        } else if name == "TRACE"@ {
            Some(Method::Trace)
        } else {
            None
        }
    }

    /// The name of the method.
    pub fn name(&self) -> (name: &'static str)
        ensures
            Method::named(name@) == Some(*self),
    {
        proof {
            lemma_names_differ();
        }
        match self {
            Method::Get => "GET",
            Method::Post => "POST",
            Method::Put => "PUT",
            Method::Delete => "DELETE",
            Method::Head => "HEAD",
            Method::Options => "OPTIONS",
            Method::Connect => "CONNECT",
            Method::Patch => "PATCH",
            Method::Trace => "TRACE",
        }
    }
}

/// No two of the methods' names are the same.
proof fn lemma_names_differ()
    ensures
        "GET"@.len() == 3 && "GET"@[0] == 'G',
        "PUT"@.len() == 3 && "PUT"@[0] == 'P',
        "POST"@.len() == 4 && "POST"@[0] == 'P',
        "HEAD"@.len() == 4 && "HEAD"@[0] == 'H',
        "PATCH"@.len() == 5 && "PATCH"@[0] == 'P',
        "TRACE"@.len() == 5 && "TRACE"@[0] == 'T',
        "DELETE"@.len() == 6,
        "OPTIONS"@.len() == 7 && "OPTIONS"@[0] == 'O',
        "CONNECT"@.len() == 7 && "CONNECT"@[0] == 'C',
{
    reveal_strlit("GET");
    reveal_strlit("PUT");
    reveal_strlit("POST");
    reveal_strlit("HEAD");
    reveal_strlit("PATCH");
    reveal_strlit("TRACE");
    reveal_strlit("DELETE");
    reveal_strlit("OPTIONS");
    reveal_strlit("CONNECT");
}

} // verus!
