//! Plain round robin: servers are handed out in insertion order, wrapping
//! around at the end.
use vstd::prelude::*;

verus! {

/// A destination of the plain round robin.
#[derive(Debug)]
pub struct Server {
    pub url: String,
}

impl Server {
    pub fn new(url: String) -> (r: Server)
        ensures
            r.url@ == url@,
    {
        Server { url }
    }
}

/// Rotates over its servers in the order they were inserted.
#[derive(Debug)]
pub struct RoundRobinBalancer {
    servers: Vec<Server>,
    cur_idx: usize,
}

impl RoundRobinBalancer {
    /// The urls of the servers, in insertion order.
    pub closed spec fn urls(&self) -> Seq<Seq<char>> {
        self.servers@.map_values(|s: Server| s.url@)
    }

    /// The position of the server that `next` hands out.
    pub closed spec fn cursor(&self) -> int {
        self.cur_idx as int
    }

    pub closed spec fn wf(&self) -> bool {
        self.cur_idx == 0 || self.cur_idx < self.servers.len()
    }

    pub fn new() -> (r: RoundRobinBalancer)
        ensures
            r.wf(),
            r.urls() == Seq::<Seq<char>>::empty(),
            r.cursor() == 0,
    {
        RoundRobinBalancer { servers: Vec::new(), cur_idx: 0 }
    }

    pub fn get_servers(&self) -> (r: &Vec<Server>)
        ensures
            r@.map_values(|s: Server| s.url@) == self.urls(),
    {
        &self.servers
    }

    pub fn insert_server(&mut self, server: Server)
        requires
            old(self).wf(),
        ensures
            final(self).wf(),
            final(self).urls() == old(self).urls().push(server.url@),
            final(self).cursor() == old(self).cursor(),
    {
        self.servers.push(server);
        proof {
            assert(self.urls() =~= old(self).urls().push(server.url@));
        }
    }

    pub fn insert_url(&mut self, url: String)
        requires
            old(self).wf(),
        ensures
            final(self).wf(),
            final(self).urls() == old(self).urls().push(url@),
            final(self).cursor() == old(self).cursor(),
    {
        let server = Server::new(url);
        self.insert_server(server);
    }

    /// Hands out the server under the cursor and moves the cursor one step,
    /// wrapping around; `None` when there is no server.
    pub fn next(&mut self) -> (r: Option<Server>)
        requires
            old(self).wf(),
        ensures
            final(self).wf(),
            final(self).urls() == old(self).urls(),
            old(self).urls().len() == 0 <==> r is None,
            old(self).urls().len() == 0 ==> final(self).cursor() == old(self).cursor(),
            r matches Some(s) ==> {
                &&& s.url@ == old(self).urls()[old(self).cursor()]
                &&& final(self).cursor() == (old(self).cursor() + 1) % (old(self).urls().len() as int)
            },
    {
        let n = self.servers.len();
        if n == 0 {
            return None;
        }
        let i = self.cur_idx;
        let url = self.servers[i].url.clone();
        self.cur_idx = if i + 1 < n {
            i + 1
        } else {
            0
        };
        proof {
            assert(old(self).urls()[i as int] == old(self).servers@[i as int].url@);
            if i + 1 < n {
                vstd::arithmetic::div_mod::lemma_small_mod((i + 1) as nat, n as nat);
            } else {
                vstd::arithmetic::div_mod::lemma_mod_self_0(n as int);
            }
        }
        Some(Server { url })
    }
}

} // verus!
