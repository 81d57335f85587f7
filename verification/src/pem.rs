//! Certificate and key selection from PEM input: the block-level reading is
//! the PEM crate's, the selection rule — every certificate in order, the
//! first private key of any kind — is verified here.

use vstd::prelude::*;
use crate::bytes::copy_bytes;

verus! {

/// One PEM item, as the reader hands it over: DER bytes under a block label.
/// `Other` stands for a block kind this library has no use for.
pub enum PemItem {
    Cert(Vec<u8>),
    RsaKey(Vec<u8>),
    Pkcs8Key(Vec<u8>),
    EcKey(Vec<u8>),
    Crl(Vec<u8>),
    Other,
}

/// A PEM item as a tagged plain value.
pub open spec fn pem_item_view(it: PemItem) -> (u8, Seq<u8>) {
    match it {
        PemItem::Cert(d) => (1u8, d@),
        PemItem::RsaKey(d) => (2u8, d@),
        PemItem::Pkcs8Key(d) => (3u8, d@),
        PemItem::EcKey(d) => (4u8, d@),
        PemItem::Crl(d) => (5u8, d@),
        PemItem::Other => (0u8, Seq::empty()),
    }
}

pub open spec fn pem_items_view(v: Seq<PemItem>) -> Seq<(u8, Seq<u8>)> {
    v.map_values(|it: PemItem| pem_item_view(it))
}

/// What the PEM reader finds in the given bytes; `None` when it refuses
/// them. A function of the bytes alone.
pub uninterp spec fn pem_items_of(pem: Seq<u8>) -> Option<Seq<(u8, Seq<u8>)>>;

/// Relies on rustls_pemfile::read_all: it reads every PEM block from the
/// bytes, in order, and what it returns depends on the bytes alone.
#[verifier::external_body]
fn read_pem_items(pem: &[u8]) -> (r: Option<Vec<PemItem>>)
    ensures
        match r {
            Some(v) => pem_items_of(pem@) == Some(pem_items_view(v@)),
            None => pem_items_of(pem@) is None,
        },
{
    let mut buf = pem;
    let items = rustls_pemfile::read_all(&mut buf).ok()?;
    let conv = |it: rustls_pemfile::Item| match it {
        rustls_pemfile::Item::X509Certificate(d) => PemItem::Cert(d),
        rustls_pemfile::Item::RSAKey(d) => PemItem::RsaKey(d),
        rustls_pemfile::Item::PKCS8Key(d) => PemItem::Pkcs8Key(d),
        rustls_pemfile::Item::ECKey(d) => PemItem::EcKey(d),
        rustls_pemfile::Item::Crl(d) => PemItem::Crl(d),
        _ => PemItem::Other,
    };
    Some(items.into_iter().map(conv).collect())
}

#[derive(Clone, Copy, PartialEq, Eq, Structural, Debug)]
pub enum KeyKind {
    Rsa,
    Pkcs8,
    Ec,
}

/// The selected private key: its PEM block kind and DER bytes.
pub struct PrivateKeyData {
    pub kind: KeyKind,
    pub der: Vec<u8>,
}

#[derive(Clone, Copy, PartialEq, Eq, Structural, Debug)]
pub enum CertParseError {
    /// The PEM reader refused the bytes.
    Unreadable,
    /// No `CERTIFICATE` block.
    MissingCertificate,
    /// No private key block of any supported kind.
    MissingPrivateKey,
}

pub open spec fn is_cert_item(p: (u8, Seq<u8>)) -> bool {
    p.0 == 1
}

pub open spec fn is_key_item(p: (u8, Seq<u8>)) -> bool {
    p.0 == 2 || p.0 == 3 || p.0 == 4
}

pub open spec fn key_kind_tag(k: KeyKind) -> u8 {
    match k {
        KeyKind::Rsa => 2,
        KeyKind::Pkcs8 => 3,
        KeyKind::Ec => 4,
    }
}

/// All certificate blocks, in order.
pub open spec fn certs_of(items: Seq<(u8, Seq<u8>)>) -> Seq<Seq<u8>>
    decreases items.len(),
{
    if items.len() == 0 {
        Seq::empty()
    } else {
        let rest = certs_of(items.subrange(1, items.len() as int));
        if is_cert_item(items[0]) {
            seq![items[0].1] + rest
        } else {
            rest
        }
    }
}

/// The first private key block of any supported kind.
pub open spec fn first_key_of(items: Seq<(u8, Seq<u8>)>) -> Option<(u8, Seq<u8>)>
    decreases items.len(),
{
    if items.len() == 0 {
        None
    } else if is_key_item(items[0]) {
        Some(items[0])
    } else {
        first_key_of(items.subrange(1, items.len() as int))
    }
}

pub open spec fn certs_views(v: Seq<Vec<u8>>) -> Seq<Seq<u8>> {
    v.map_values(|d: Vec<u8>| d@)
}

proof fn lemma_certs_of_snoc(items: Seq<(u8, Seq<u8>)>, i: int)
    requires
        0 <= i < items.len(),
    ensures
        certs_of(items.subrange(0, i + 1)) == if is_cert_item(items[i]) {
            certs_of(items.subrange(0, i)) + seq![items[i].1]
        } else {
            certs_of(items.subrange(0, i))
        },
    decreases i,
{
    let a = items.subrange(0, i + 1);
    let b = items.subrange(0, i);
    if i == 0 {
        assert(a.subrange(1, 1) =~= items.subrange(1, 1).subrange(0, 0));
        assert(certs_of(a.subrange(1, a.len() as int)) =~= Seq::<Seq<u8>>::empty());
        if is_cert_item(items[0]) {
            assert(certs_of(a) =~= certs_of(b) + seq![items[0].1]);
        }
    } else {
        let t = items.subrange(1, items.len() as int);
        lemma_certs_of_snoc(t, i - 1);
        assert(a.subrange(1, a.len() as int) =~= t.subrange(0, i));
        assert(b.subrange(1, b.len() as int) =~= t.subrange(0, i - 1));
        assert(t[i - 1] == items[i]);
        assert(a[0] == items[0] && b[0] == items[0]);
        if is_cert_item(items[0]) {
            if is_cert_item(items[i]) {
                assert(seq![items[0].1] + (certs_of(t.subrange(0, i - 1)) + seq![items[i].1])
                    =~= (seq![items[0].1] + certs_of(t.subrange(0, i - 1))) + seq![items[i].1]);
            }
        }
    }
}

proof fn lemma_first_key_snoc(items: Seq<(u8, Seq<u8>)>, i: int)
    requires
        0 <= i < items.len(),
    ensures
        first_key_of(items.subrange(0, i + 1)) == match first_key_of(items.subrange(0, i)) {
            Some(k) => Some(k),
            None => if is_key_item(items[i]) {
                Some(items[i])
            } else {
                None
            },
        },
    decreases i,
{
    let a = items.subrange(0, i + 1);
    let b = items.subrange(0, i);
    if i == 0 {
        assert(a.subrange(1, 1).len() == 0);
        assert(first_key_of(a.subrange(1, 1)) is None);
        assert(a[0] == items[0]);
    } else {
        let t = items.subrange(1, items.len() as int);
        lemma_first_key_snoc(t, i - 1);
        assert(a.subrange(1, a.len() as int) =~= t.subrange(0, i));
        assert(b.subrange(1, b.len() as int) =~= t.subrange(0, i - 1));
        assert(t[i - 1] == items[i]);
        assert(a[0] == items[0] && b[0] == items[0]);
    }
}

/// Split PEM bytes into the certificate chain and the first private key.
/// The key's absence is reported before an empty chain, and a chain without
/// any certificate is refused.
#[verifier::loop_isolation(false)]
pub fn parse_pem(pem: &[u8]) -> (r: Result<(Vec<Vec<u8>>, PrivateKeyData), CertParseError>)
    ensures
        ({
            let items_opt = pem_items_of(pem@);
            match r {
                Ok(ck) => {
                    &&& items_opt is Some
                    &&& certs_views(ck.0@) == certs_of(items_opt.unwrap())
                    &&& certs_of(items_opt.unwrap()).len() > 0
                    &&& first_key_of(items_opt.unwrap()) == Some(
                        (key_kind_tag(ck.1.kind), ck.1.der@),
                    )
                },
                Err(CertParseError::Unreadable) => items_opt is None,
                Err(CertParseError::MissingPrivateKey) => items_opt is Some && first_key_of(
                    items_opt.unwrap(),
                ) is None,
                Err(CertParseError::MissingCertificate) => items_opt is Some && first_key_of(
                    items_opt.unwrap(),
                ) is Some && certs_of(items_opt.unwrap()).len() == 0,
            }
        }),
{
    let items = match read_pem_items(pem) {
        None => {
            return Err(CertParseError::Unreadable);
        },
        Some(v) => v,
    };
    let ghost iv = pem_items_view(items@);
    let mut certs: Vec<Vec<u8>> = Vec::new();
    let mut key: Option<PrivateKeyData> = None;
    let mut i: usize = 0;
    proof {
        assert(iv.subrange(0, 0) =~= Seq::<(u8, Seq<u8>)>::empty());
        assert(certs_views(certs@) =~= certs_of(iv.subrange(0, 0)));
    }
    while i < items.len()
        invariant
            0 <= i <= items@.len(),
            iv == pem_items_view(items@),
            certs_views(certs@) == certs_of(iv.subrange(0, i as int)),
            match key {
                Some(k) => first_key_of(iv.subrange(0, i as int)) == Some(
                    (key_kind_tag(k.kind), k.der@),
                ),
                None => first_key_of(iv.subrange(0, i as int)) is None,
            },
        decreases items@.len() - i,
    {
        proof {
            assert(iv[i as int] == pem_item_view(items@[i as int]));
            lemma_certs_of_snoc(iv, i as int);
            lemma_first_key_snoc(iv, i as int);
        }
        let ghost certs_before = certs@;
        match &items[i] {
            PemItem::Cert(d) => {
                certs.push(copy_bytes(d.as_slice()));
                proof {
                    assert(certs_views(certs@) =~= certs_views(certs_before) + seq![
                        iv[i as int].1,
                    ]);
                }
            },
            PemItem::RsaKey(d) => {
                if key.is_none() {
                    key = Some(PrivateKeyData { kind: KeyKind::Rsa, der: copy_bytes(d.as_slice()) });
                }
            },
            PemItem::Pkcs8Key(d) => {
                if key.is_none() {
                    key = Some(
                        PrivateKeyData { kind: KeyKind::Pkcs8, der: copy_bytes(d.as_slice()) },
                    );
                }
            },
            PemItem::EcKey(d) => {
                if key.is_none() {
                    key = Some(PrivateKeyData { kind: KeyKind::Ec, der: copy_bytes(d.as_slice()) });
                }
            },
            PemItem::Crl(_) => {},
            PemItem::Other => {},
        }
        i = i + 1;
    }
    proof {
        assert(iv.subrange(0, iv.len() as int) =~= iv);
    }
    let key = match key {
        None => {
            return Err(CertParseError::MissingPrivateKey);
        },
        Some(k) => k,
    };
    if certs.len() == 0 {
        return Err(CertParseError::MissingCertificate);
    }
    Ok((certs, key))
}

} // verus!
