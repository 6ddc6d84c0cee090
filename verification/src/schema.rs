//! The Postgres schema, and the one query that matters.
//!
//! Kept as string constants rather than a migration directory: the point is that the shape is
//! legible in one place.

use vstd::prelude::*;

verus! {

/// DDL. Note what is *absent*: no user column, no namespace name, no plaintext, no embedding.
pub const SCHEMA: &'static str = r#"
-- Items. Every column is opaque to the provider.
CREATE TABLE IF NOT EXISTS memory_items (
    ns_handle    BYTEA  NOT NULL,          -- 16 bytes; stable across key rotation
    item_id      TEXT   NOT NULL,
    ciphertext   BYTEA  NOT NULL,
    nonce        BYTEA  NOT NULL,          -- 24 bytes, XChaCha20
    wrapped_key  BYTEA  NOT NULL,          -- content key under the namespace key
    wrap_nonce   BYTEA  NOT NULL,
    -- 'blind' | 'plaintext_vectors'. A namespace holding any 'plaintext_vectors' row can no
    -- longer honestly be called end-to-end encrypted, which is why it is per row and not a
    -- namespace-level flag somebody could forget to set.
    index_mode   TEXT   NOT NULL DEFAULT 'blind',
    expires_at   BIGINT,                   -- unix seconds; NULL = keep until forgotten
    created_at   BIGINT NOT NULL,
    PRIMARY KEY (ns_handle, item_id)
);

-- The blind index. One row per (item, band).
CREATE TABLE IF NOT EXISTS memory_buckets (
    ns_handle BYTEA NOT NULL,
    item_id   TEXT  NOT NULL,
    band      INT   NOT NULL,
    token     BYTEA NOT NULL,              -- 16-byte HMAC under the namespace key
    PRIMARY KEY (ns_handle, item_id, band),
    FOREIGN KEY (ns_handle, item_id)
        REFERENCES memory_items (ns_handle, item_id) ON DELETE CASCADE
);

-- Search is a lookup by (namespace, token), so this is the index that matters.
CREATE INDEX IF NOT EXISTS memory_buckets_lookup
    ON memory_buckets (ns_handle, token);

-- GC scans by expiry.
CREATE INDEX IF NOT EXISTS memory_items_expiry
    ON memory_items (expires_at) WHERE expires_at IS NOT NULL;
"#;

/// Candidate lookup: items sharing at least one bucket token with the query, best first.
///
/// `$1` = namespace handle, `$2` = token array, `$3` = limit.
///
/// The tie-break on `item_id` is not decoration. Without it Postgres may return equal-scoring rows
/// in any order it likes, the client's own ranking becomes non-reproducible across identical
/// queries, and debugging a recall complaint becomes guesswork.
pub const SEARCH: &'static str = r#"
SELECT i.item_id,
       i.ciphertext,
       i.nonce,
       i.wrapped_key,
       i.wrap_nonce,
       COUNT(*) AS shared_bands
  FROM memory_buckets b
  JOIN memory_items   i ON i.ns_handle = b.ns_handle AND i.item_id = b.item_id
 WHERE b.ns_handle = $1
   AND b.token = ANY($2)
   AND (i.expires_at IS NULL OR i.expires_at > EXTRACT(EPOCH FROM NOW()))
 GROUP BY i.item_id, i.ciphertext, i.nonce, i.wrapped_key, i.wrap_nonce
 ORDER BY shared_bands DESC, i.item_id ASC
 LIMIT $3
"#;

/// True when every row in the namespace was written under the blind index.
pub const IS_E2E: &'static str = r#"
SELECT NOT EXISTS (
    SELECT 1 FROM memory_items
     WHERE ns_handle = $1 AND index_mode <> 'blind'
) AS is_e2e
"#;

} // verus!
