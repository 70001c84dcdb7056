//! The settings of the client: the address of the service and the id of the
//! client.

pub mod ui;

use vstd::prelude::*;

verus! {

/// The settings: the address of the service and the id under which the
/// client is known to it.
#[derive(Debug)]
pub struct Data {
    server_url: String,
    client_id: String,
}

/// `Data` with its texts as sequences of characters.
pub struct DataView {
    pub server_url: Seq<char>,
    pub client_id: Seq<char>,
}

impl View for Data {
    type V = DataView;

    closed spec fn view(&self) -> DataView {
        DataView { server_url: self.server_url@, client_id: self.client_id@ }
    }
}

impl Data {
    /// The name of the file that holds the settings.
    pub fn filename() -> (name: &'static str)
        ensures
            name@ == "config"@,
    {
        "config"
    }

    pub fn set_server_url(&mut self, url: String)
        ensures
            final(self)@ == (DataView { server_url: url@, ..old(self)@ }),
    {
        self.server_url = url;
    }

    pub fn set_client_id(&mut self, client_id: String)
        ensures
            final(self)@ == (DataView { client_id: client_id@, ..old(self)@ }),
    {
        self.client_id = client_id;
    }

    pub fn get_server_url(&self) -> (url: &str)
        ensures
            url@ == self@.server_url,
    {
        self.server_url.as_str()
    }

    pub fn get_client_id(&self) -> (client_id: &str)
        ensures
            client_id@ == self@.client_id,
    {
        self.client_id.as_str()
    }
}

impl Default for Data {
    /// The settings for the development server.
    fn default() -> (data: Self)
        ensures
            data@ == (DataView {
                server_url: "https://traq-s-dev.tokyotech.org/api/v3"@,
                client_id: "xIwrarN2fZn4ikXBscU8YdA8ZcGGOQD2CczY"@,
            }),
    {
        Self {
            server_url: "https://traq-s-dev.tokyotech.org/api/v3".to_owned(),
            client_id: "xIwrarN2fZn4ikXBscU8YdA8ZcGGOQD2CczY".to_owned(),
        }
    }
}

} // verus!
